use kana_kanji_core::{ComposingText, EngineError, KanaKanjiConverter};

#[test]
fn insert_advances_cursor_and_grows_buffer() {
    let mut buf = ComposingText::new();
    assert_eq!(buf.len(), 0);
    assert_eq!(buf.cursor_position(), 0);
    assert!(buf.insert_at_cursor_position("seido").is_ok());
    assert_eq!(buf.len(), 5);
    assert_eq!(buf.cursor_position(), 5);
    assert_eq!(buf.unit_at(0), 's');
    assert_eq!(buf.unit_at(4), 'o');
}

#[test]
fn insert_in_the_middle_at_cursor() {
    let mut buf = ComposingText::new();
    assert!(buf.insert_at_cursor_position("so").is_ok());
    buf.delete_backward_from_cursor_position(1);
    assert_eq!(buf.cursor_position(), 1);
    assert!(buf.insert_at_cursor_position("eid").is_ok());
    assert!(buf.insert_at_cursor_position("o").is_ok());
    assert_eq!(buf.len(), 5);
    let collected: String = (0..buf.len()).map(|i| buf.unit_at(i)).collect();
    assert_eq!(collected, "seido");
}

#[test]
fn insert_rejects_non_phonetic_input_unchanged() {
    let mut buf = ComposingText::new();
    assert!(buf.insert_at_cursor_position("ka").is_ok());
    let r = buf.insert_at_cursor_position("k9");
    assert_eq!(r, Err(EngineError::InvalidInput));
    assert_eq!(buf.len(), 2);
    assert_eq!(buf.cursor_position(), 2);
}

#[test]
fn insert_accepts_hiragana() {
    let mut buf = ComposingText::new();
    assert!(buf.insert_at_cursor_position("かな").is_ok());
    assert_eq!(buf.len(), 2);
    assert_eq!(buf.unit_at(0), 'か');
}

#[test]
fn delete_forward_clamps_to_available() {
    let mut buf = ComposingText::new();
    assert!(buf.insert_at_cursor_position("ab").is_ok());
    buf.delete_backward_from_cursor_position(2);
    assert_eq!(buf.cursor_position(), 0);
    assert!(buf.insert_at_cursor_position("ab").is_ok());
    buf.delete_backward_from_cursor_position(2);
    buf.delete_forward_from_cursor_position(5);
    assert_eq!(buf.len(), 0);
    assert_eq!(buf.cursor_position(), 0);
}

#[test]
fn delete_backward_clamps_and_moves_cursor() {
    let mut buf = ComposingText::new();
    assert!(buf.insert_at_cursor_position("abc").is_ok());
    buf.delete_backward_from_cursor_position(10);
    assert_eq!(buf.len(), 0);
    assert_eq!(buf.cursor_position(), 0);
}

#[test]
fn delete_from_empty_buffer_is_a_no_op() {
    let mut buf = ComposingText::new();
    buf.delete_forward_from_cursor_position(3);
    buf.delete_backward_from_cursor_position(3);
    assert_eq!(buf.len(), 0);
    assert_eq!(buf.cursor_position(), 0);
}

#[test]
fn delete_forward_keeps_cursor_and_prefix() {
    let mut buf = ComposingText::new();
    assert!(buf.insert_at_cursor_position("abcde").is_ok());
    buf.delete_backward_from_cursor_position(3);
    assert_eq!(buf.cursor_position(), 2);
    buf.delete_forward_from_cursor_position(1);
    assert_eq!(buf.len(), 2);
    assert_eq!(buf.cursor_position(), 2);
    assert_eq!(buf.unit_at(0), 'a');
    assert_eq!(buf.unit_at(1), 'b');
}

#[test]
fn stop_composition_empties_buffer_and_resets_cursor() {
    let mut session = KanaKanjiConverter::new();
    let mut buf = ComposingText::new();
    assert!(buf.insert_at_cursor_position("nihongo").is_ok());
    buf.delete_backward_from_cursor_position(2);
    session.stop_composition(&mut buf);
    assert_eq!(buf.len(), 0);
    assert_eq!(buf.cursor_position(), 0);
}

#[test]
fn stop_composition_from_fresh_state() {
    let mut session = KanaKanjiConverter::new();
    let mut buf = ComposingText::new();
    session.stop_composition(&mut buf);
    assert_eq!(buf.len(), 0);
    assert_eq!(buf.cursor_position(), 0);
}
