use resp_codec::scan::{get_next_word_end, word_ends_with_break};

#[test]
fn word_end_is_the_first_carriage_return() {
    assert_eq!(get_next_word_end(b"+OK\r\n", 0), Some(3));
    assert_eq!(get_next_word_end(b"a\rb\rc", 0), Some(1));
}

#[test]
fn word_end_is_an_absolute_offset() {
    assert_eq!(get_next_word_end(b"a\rb\rc", 2), Some(3));
    assert_eq!(get_next_word_end(b"a\rb\rc", 1), Some(1));
}

#[test]
fn word_end_is_absent_without_a_carriage_return() {
    assert_eq!(get_next_word_end(b"+OK\n", 0), None);
    assert_eq!(get_next_word_end(b"a\rb", 2), None);
    assert_eq!(get_next_word_end(b"", 0), None);
}

#[test]
fn word_end_past_the_buffer_is_absent() {
    assert_eq!(get_next_word_end(b"a\r", 2), None);
    assert_eq!(get_next_word_end(b"a\r", 7), None);
}

#[test]
fn break_is_confirmed_when_both_bytes_are_right() {
    assert!(word_ends_with_break(b"+OK\r\n", 3));
    assert!(word_ends_with_break(b"\r\n", 0));
}

#[test]
fn break_is_not_confirmed_when_a_byte_is_wrong() {
    assert!(!word_ends_with_break(b"+OK\rX", 3));
    assert!(!word_ends_with_break(b"+OK\n\n", 3));
    assert!(!word_ends_with_break(b"+OK\r\n", 2));
}

#[test]
fn break_is_not_confirmed_before_it_has_arrived() {
    assert!(!word_ends_with_break(b"+OK\r", 3));
    assert!(!word_ends_with_break(b"+OK", 3));
    assert!(!word_ends_with_break(b"+OK", 9));
    assert!(!word_ends_with_break(b"", usize::MAX));
}
