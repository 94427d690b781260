use ring_log::LogBuffer;

#[test]
fn short_text_fits() {
    // capacity 8, write "ab": the whole text is retained
    let mut buf = LogBuffer::new(vec![0u8; 8]);
    buf.write_str("ab");
    assert_eq!(buf.len(), 2);
    assert!(!buf.is_empty());
    assert!(!buf.is_full());
    assert_eq!(buf.extract(), "ab");
}

#[test]
fn overflow_keeps_last_bytes() {
    // capacity 4, write "abcde": only the most recent 4 bytes stay
    let mut buf = LogBuffer::new(vec![0u8; 4]);
    buf.write_str("abcde");
    assert_eq!(buf.len(), 4);
    assert!(buf.is_full());
    assert_eq!(buf.extract(), "bcde");
}

#[test]
fn exact_fill_multibyte() {
    // capacity 6, write "héllo" (6 bytes of UTF-8): fills the storage exactly
    let mut buf = LogBuffer::new(vec![0u8; 6]);
    buf.write_str("héllo");
    assert_eq!(buf.len(), 6);
    assert!(buf.is_full());
    assert_eq!(buf.extract(), "héllo");
}

#[test]
fn orphaned_continuation_byte_skipped() {
    // capacity 3, "éa" lays out [0xc3, 0xa9, 'a']; writing "b" overwrites the
    // 0xc3 lead byte, leaving the 0xa9 continuation byte orphaned at the front
    let mut buf = LogBuffer::new(vec![0u8; 3]);
    buf.write_str("éa");
    buf.write_str("b");
    assert_eq!(buf.len(), 3);
    assert_eq!(buf.extract(), "ab");
}

#[test]
fn clear_empties_the_buffer() {
    let mut buf = LogBuffer::new(vec![0u8; 8]);
    buf.write_str("abc");
    buf.clear();
    assert!(buf.is_empty());
    assert_eq!(buf.len(), 0);
    assert_eq!(buf.extract(), "");
}

#[test]
fn extract_twice_returns_the_same_text() {
    let mut buf = LogBuffer::new(vec![0u8; 4]);
    buf.write_str("abcde");
    let first = buf.extract().to_string();
    let second = buf.extract().to_string();
    assert_eq!(first, "bcde");
    assert_eq!(first, second);
}

#[test]
fn extract_twice_without_wrap() {
    let mut buf = LogBuffer::new(vec![0u8; 16]);
    buf.write_str("log line");
    assert_eq!(buf.extract(), "log line");
    assert_eq!(buf.extract(), "log line");
}

#[test]
fn round_trip_multibyte() {
    let mut buf = LogBuffer::new(vec![0u8; 16]);
    buf.write_str("héllo wörld");
    assert_eq!(buf.extract(), "héllo wörld");
}

#[test]
fn fresh_buffer_extracts_empty() {
    let mut buf = LogBuffer::new(vec![0u8; 5]);
    assert!(buf.is_empty());
    assert_eq!(buf.capacity(), 5);
    assert_eq!(buf.extract(), "");
}

#[test]
fn write_after_extract_continues() {
    let mut buf = LogBuffer::new(vec![0u8; 8]);
    buf.write_str("abc");
    assert_eq!(buf.extract(), "abc");
    buf.write_str("def");
    assert_eq!(buf.extract(), "abcdef");
}

#[test]
fn overflow_in_several_writes() {
    // the bytes cross the wrap boundary over separate calls
    let mut buf = LogBuffer::new(vec![0u8; 4]);
    buf.write_str("ab");
    buf.write_str("cd");
    buf.write_str("ef");
    assert_eq!(buf.extract(), "cdef");
}

#[test]
fn two_full_laps_exactly() {
    // six bytes through a capacity of three: exactly two laps
    let mut buf = LogBuffer::new(vec![0u8; 3]);
    buf.write_str("abcdef");
    assert_eq!(buf.len(), 3);
    assert_eq!(buf.extract(), "def");
}

#[test]
fn only_continuation_bytes_left() {
    // capacity 1 cannot hold the lead byte of a two-byte character: the one
    // retained byte is a continuation byte, so nothing is readable
    let mut buf = LogBuffer::new(vec![0u8; 1]);
    buf.write_str("é");
    assert_eq!(buf.len(), 1);
    assert_eq!(buf.extract(), "");
}

#[test]
fn multibyte_character_intact_after_wrap() {
    // capacity 4: "abcé" is 5 bytes, the é straddles the wrap; both of its
    // bytes survive and the overwritten 'a' is gone
    let mut buf = LogBuffer::new(vec![0u8; 4]);
    buf.write_str("abcé");
    assert_eq!(buf.extract(), "bcé");
}

#[test]
fn empty_write_changes_nothing() {
    let mut buf = LogBuffer::new(vec![0u8; 4]);
    buf.write_str("ab");
    buf.write_str("");
    assert_eq!(buf.len(), 2);
    assert_eq!(buf.extract(), "ab");
}

#[test]
fn zero_capacity_buffer() {
    let mut buf = LogBuffer::new(Vec::new());
    assert_eq!(buf.capacity(), 0);
    assert!(buf.is_empty());
    assert!(buf.is_full());
    buf.write_str("abc");
    assert!(buf.is_empty());
    assert_eq!(buf.extract(), "");
}

#[test]
fn clear_after_overflow_resets() {
    let mut buf = LogBuffer::new(vec![0u8; 3]);
    buf.write_str("abcdef");
    buf.clear();
    assert!(buf.is_empty());
    buf.write_str("xy");
    assert_eq!(buf.extract(), "xy");
}

#[test]
fn four_byte_character_round_trip() {
    // a four-byte encoding (U+1F600) survives when it fits
    let mut buf = LogBuffer::new(vec![0u8; 4]);
    buf.write_str("\u{1F600}");
    assert!(buf.is_full());
    assert_eq!(buf.extract(), "\u{1F600}");
}

#[test]
fn four_byte_character_partially_overwritten() {
    // capacity 5: writing "ab" after the four-byte character destroys its lead
    // byte; extraction starts at the next lead byte, the 'a'
    let mut buf = LogBuffer::new(vec![0u8; 5]);
    buf.write_str("\u{1F600}x");
    buf.write_str("ab");
    assert_eq!(buf.extract(), "xab");
}
