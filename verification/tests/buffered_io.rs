use prob_graph::buffered_io::{BufIoError, BufferCursor};

#[test]
fn write_then_read_round_trips() {
    let mut buf = BufferCursor::new();
    buf.write_u32(0xDEAD_BEEF);
    buf.write_u32(7);
    assert_eq!(buf.position(), 8);
    assert_eq!(buf.data.len(), 8);

    buf.seek(0);
    assert_eq!(buf.read_u32(), Ok(0xDEAD_BEEF));
    assert_eq!(buf.read_u32(), Ok(7));
    assert_eq!(buf.position(), 8);
}

#[test]
fn values_are_little_endian() {
    let mut buf = BufferCursor::new();
    buf.write_u32(0x0403_0201);
    assert_eq!(buf.data, vec![1, 2, 3, 4]);
}

#[test]
fn overwrite_in_place() {
    let mut buf = BufferCursor::from_bytes(vec![9; 12]);
    buf.seek(4);
    buf.write_u32(0);
    assert_eq!(buf.data, vec![9, 9, 9, 9, 0, 0, 0, 0, 9, 9, 9, 9]);
}

#[test]
fn writing_past_the_end_fills_a_hole_with_zeroes() {
    let mut buf = BufferCursor::new();
    buf.seek(6);
    buf.write_u32(0xFFFF_FFFF);
    assert_eq!(buf.data.len(), 10);
    assert_eq!(buf.data[0..6], [0, 0, 0, 0, 0, 0][..]);
    assert_eq!(buf.data[6..10], [255, 255, 255, 255][..]);
}

#[test]
fn reading_past_the_end_is_a_short_read() {
    let mut buf = BufferCursor::from_bytes(vec![1, 2, 3]);
    assert_eq!(buf.read_u32(), Err(BufIoError::ShortRead));
    // the cursor has not moved, and the bytes are untouched
    assert_eq!(buf.position(), 0);
    assert_eq!(buf.data, vec![1, 2, 3]);
}
