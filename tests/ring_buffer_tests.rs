use ring_buffer::{NoSpaceLeft, RingBuffer};

#[test]
fn test_1() {
    let mut rb = RingBuffer::create(3);
    assert_eq!(rb.capacity(), 3);

    assert_eq!(rb.write("ab").unwrap(), 2);

    assert_eq!(rb.write("c").unwrap(), 0);

    assert_eq!(rb.read(1).unwrap(), "a");

    assert_eq!(rb.write("ec").unwrap_err(), NoSpaceLeft);
}

#[test]
fn new_buffer_is_empty() {
    let rb = RingBuffer::create(4);
    assert_eq!(rb.capacity(), 4);
    assert_eq!(rb.len(), 0);
}

#[test]
fn failed_write_keeps_bytes_written_before() {
    let mut rb = RingBuffer::create(3);
    assert_eq!(rb.write("ab"), Ok(2));
    assert_eq!(rb.write("c"), Ok(0));
    assert_eq!(rb.read(1).unwrap(), "a");
    assert_eq!(rb.len(), 2);
    assert_eq!(rb.write("ec"), Err(NoSpaceLeft));
    // 'e' took the freed slot 0 before 'c' found slot 1 occupied.
    assert_eq!(rb.len(), 3);
    assert_eq!(rb.read(3).unwrap(), "bce");
    assert_eq!(rb.len(), 0);
}

#[test]
fn read_moves_write_cursor_to_read_cursor() {
    let mut rb = RingBuffer::create(3);
    assert_eq!(rb.write("ab"), Ok(2));
    assert_eq!(rb.write("c"), Ok(0));
    assert_eq!(rb.read(1).unwrap(), "a");
    assert_eq!(rb.write("e"), Ok(1));
    assert_eq!(rb.read(2).unwrap(), "bc");
    assert_eq!(rb.len(), 1);
    assert_eq!(rb.read(1).unwrap(), "e");
    assert_eq!(rb.len(), 0);
}

#[test]
fn round_trip_returns_written_bytes() {
    let mut rb = RingBuffer::create(5);
    assert_eq!(rb.write("abcd"), Ok(4));
    assert_eq!(rb.len(), 4);
    assert_eq!(rb.read(4).unwrap(), "abcd");
    assert_eq!(rb.len(), 0);
}

#[test]
fn round_trip_after_wrapping() {
    let mut rb = RingBuffer::create(4);
    assert_eq!(rb.write("ab"), Ok(2));
    assert_eq!(rb.read(2).unwrap(), "ab");
    // An empty read brings the write cursor to the read cursor, slot 2.
    assert_eq!(rb.read(0).unwrap(), "");
    assert_eq!(rb.write("cde"), Ok(1));
    assert_eq!(rb.read(3).unwrap(), "cde");
    assert_eq!(rb.len(), 0);
}

#[test]
fn round_trip_needs_meeting_cursors() {
    let mut rb = RingBuffer::create(4);
    assert_eq!(rb.write("xyz"), Ok(3));
    assert_eq!(rb.read(3).unwrap(), "xyz");
    // The read left the write cursor at slot 0 and the read cursor at slot 3.
    assert_eq!(rb.write("pqr"), Ok(3));
    assert_eq!(rb.read(3).unwrap(), "\u{0}pq");
    assert_eq!(rb.len(), 1);
}

#[test]
fn full_buffer_refuses_writes() {
    let mut rb = RingBuffer::create(3);
    assert_eq!(rb.write("abc"), Ok(0));
    assert_eq!(rb.len(), 3);
    assert_eq!(rb.write("x"), Err(NoSpaceLeft));
    assert_eq!(rb.len(), 3);
    assert_eq!(rb.write("xyz"), Err(NoSpaceLeft));
    assert_eq!(rb.len(), 3);
    assert_eq!(rb.read(3).unwrap(), "abc");
}

#[test]
fn empty_write_returns_cursor() {
    let mut rb = RingBuffer::create(3);
    assert_eq!(rb.write(""), Ok(0));
    assert_eq!(rb.write("a"), Ok(1));
    assert_eq!(rb.write(""), Ok(1));
    assert_eq!(rb.len(), 1);
}

#[test]
fn single_slot_buffer() {
    let mut rb = RingBuffer::create(1);
    assert_eq!(rb.write("a"), Ok(0));
    assert_eq!(rb.write("b"), Err(NoSpaceLeft));
    assert_eq!(rb.read(1).unwrap(), "a");
    assert_eq!(rb.write("b"), Ok(0));
    assert_eq!(rb.read(1).unwrap(), "b");
}

#[test]
fn read_past_data_yields_zero_bytes() {
    let mut rb = RingBuffer::create(3);
    assert_eq!(rb.write("a"), Ok(1));
    assert_eq!(rb.read(2).unwrap(), "a\u{0}");
    assert_eq!(rb.len(), 0);
}

#[test]
fn read_more_than_capacity() {
    let mut rb = RingBuffer::create(2);
    assert_eq!(rb.write("ab"), Ok(0));
    assert_eq!(rb.read(5).unwrap(), "ab\u{0}\u{0}\u{0}");
    assert_eq!(rb.len(), 0);
}

#[test]
fn read_zero_bytes() {
    let mut rb = RingBuffer::create(3);
    assert_eq!(rb.write("ab"), Ok(2));
    assert_eq!(rb.read(0).unwrap(), "");
    assert_eq!(rb.len(), 2);
    // The read moved the write cursor back to slot 0, which is occupied.
    assert_eq!(rb.write("c"), Err(NoSpaceLeft));
}

#[test]
fn multibyte_text_round_trip() {
    let mut rb = RingBuffer::create(4);
    assert_eq!(rb.write("é"), Ok(2));
    assert_eq!(rb.len(), 2);
    assert_eq!(rb.read(2).unwrap(), "é");
}

#[test]
fn split_character_is_not_text() {
    let mut rb = RingBuffer::create(4);
    assert_eq!(rb.write("é"), Ok(2));
    assert_eq!(rb.read(1), None);
    assert_eq!(rb.len(), 1);
}

#[test]
fn zero_byte_counts_as_empty() {
    let mut rb = RingBuffer::create(3);
    assert_eq!(rb.write("\u{0}"), Ok(1));
    assert_eq!(rb.len(), 0);
}

#[test]
fn error_message() {
    assert_eq!(NoSpaceLeft.message(), "No space in buffer");
}

#[test]
fn repeated_operations_stay_within_capacity() {
    let cap: usize = 10;
    let mut rb = RingBuffer::create(cap);
    let mut seed: u64 = 12345;
    for round in 0..1000u64 {
        if round % 7 == 0 {
            let _ = rb.write("abc");
        } else if rb.len() == cap {
            assert_eq!(rb.write("a"), Err(NoSpaceLeft));
        } else {
            seed = seed.wrapping_mul(6364136223846793005).wrapping_add(1442695040888963407);
            let count = ((seed >> 33) % (cap as u64 + 1)) as usize;
            assert!(rb.read(count).is_some());
        }
        assert!(rb.len() <= cap);
    }
    assert!(rb.len() <= 10);
}
