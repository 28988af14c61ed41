use prob_graph::buffered_io::{BufIoError, BufferCursor};
use prob_graph::growable_data::{
    FileIndex, GrowableChunk, IncrementalSerializableGrowableData, VectorData, ABSENT_VALUE,
    CHUNK_RECORD_BYTES, CHUNK_WIDTH,
};

fn chunk_counting_from(version: u32, base: u32, persisted: bool) -> GrowableChunk {
    let mut values = Vec::new();
    for j in 0..CHUNK_WIDTH {
        values.push(base + j as u32);
    }
    GrowableChunk { data: VectorData::from_values(values), version, persisted }
}

#[test]
fn vector_data_sentinel_round_trip() {
    let mut data = VectorData::new();
    assert_eq!(data.get(0), None);
    assert_eq!(data.get(CHUNK_WIDTH - 1), None);
    data.set(3, 77);
    assert_eq!(data.get(3), Some(77));
    data.set(3, ABSENT_VALUE);
    assert_eq!(data.get(3), None);
}

// A store with two chunks, the first already persisted: no byte is emitted
// for chunk 0's record, yet both records keep their fixed-offset slots.
#[test]
fn persisted_chunk_keeps_its_slot_without_bytes() {
    let mut store = IncrementalSerializableGrowableData::new();
    store.push(chunk_counting_from(1, 100, true));
    store.push(chunk_counting_from(7, 200, false));

    let mut buf = BufferCursor::new();
    let start = store.serialize(&mut buf).unwrap();
    assert_eq!(start, 0);

    // total written region: count + two fixed-width records
    assert_eq!(buf.position(), 4 + 2 * CHUNK_RECORD_BYTES);
    assert_eq!(buf.data.len(), 4 + 2 * CHUNK_RECORD_BYTES);
    assert_eq!(buf.data[0..4], 2u32.to_le_bytes()[..]);

    // chunk 0 was skipped: its whole slot is still the untouched hole
    assert!(buf.data[4..4 + CHUNK_RECORD_BYTES].iter().all(|&b| b == 0));

    // chunk 1 was written: version tag then the 64 values
    let rec = 4 + CHUNK_RECORD_BYTES;
    assert_eq!(buf.data[rec..rec + 4], 7u32.to_le_bytes()[..]);
    for j in 0..CHUNK_WIDTH {
        let at = rec + 4 + 4 * j;
        assert_eq!(buf.data[at..at + 4], (200 + j as u32).to_le_bytes()[..]);
    }
}

#[test]
fn round_trip_reproduces_versions_values_and_sentinels() {
    let mut values = Vec::new();
    for j in 0..CHUNK_WIDTH {
        if j % 3 == 0 {
            values.push(ABSENT_VALUE);
        } else {
            values.push(1000 + j as u32);
        }
    }
    let mut store = IncrementalSerializableGrowableData::new();
    store.push(GrowableChunk { data: VectorData::from_values(values), version: 3, persisted: false });
    store.push(chunk_counting_from(9, 500, false));

    let mut buf = BufferCursor::new();
    buf.seek(12);
    let start = store.serialize(&mut buf).unwrap();
    assert_eq!(start, 12);

    let loaded = IncrementalSerializableGrowableData::deserialize(
        &mut buf,
        FileIndex::Valid { offset: start, version: 9 },
    )
    .unwrap();

    assert_eq!(loaded.items.len(), 2);
    assert_eq!(loaded.items[0].version, 3);
    assert_eq!(loaded.items[1].version, 9);
    assert!(loaded.items[0].persisted);
    assert!(loaded.items[1].persisted);
    for j in 0..CHUNK_WIDTH {
        let expected = if j % 3 == 0 { None } else { Some(1000 + j as u32) };
        assert_eq!(loaded.items[0].data.get(j), expected);
        assert_eq!(loaded.items[1].data.get(j), Some(500 + j as u32));
    }
}

// A chunk marked persisted is skipped, but its record — written by the flush
// that persisted it — still decodes with everything else.
#[test]
fn round_trip_with_persisted_chunk() {
    let mut pending = IncrementalSerializableGrowableData::new();
    pending.push(chunk_counting_from(2, 10, false));
    pending.push(chunk_counting_from(5, 40, false));

    let mut buf = BufferCursor::new();
    pending.serialize(&mut buf).unwrap();

    // the same store, the first chunk now persisted; flush it again in place
    let mut flushed = IncrementalSerializableGrowableData::new();
    flushed.push(chunk_counting_from(2, 10, true));
    flushed.push(chunk_counting_from(5, 40, false));
    buf.seek(0);
    flushed.serialize(&mut buf).unwrap();

    let loaded = IncrementalSerializableGrowableData::deserialize(
        &mut buf,
        FileIndex::Valid { offset: 0, version: 5 },
    )
    .unwrap();
    assert_eq!(loaded.items.len(), 2);
    assert_eq!(loaded.items[0].version, 2);
    assert_eq!(loaded.items[1].version, 5);
    for j in 0..CHUNK_WIDTH {
        assert_eq!(loaded.items[0].data.get(j), Some(10 + j as u32));
        assert_eq!(loaded.items[1].data.get(j), Some(40 + j as u32));
    }
}

// Serializing an unchanged store a second time leaves the byte image
// identical and advances the cursor by exactly the region's width.
#[test]
fn serialize_twice_is_byte_identical() {
    let mut store = IncrementalSerializableGrowableData::new();
    store.push(chunk_counting_from(1, 0, false));
    store.push(chunk_counting_from(2, 64, true));
    store.push(chunk_counting_from(3, 128, false));

    let mut buf = BufferCursor::new();
    store.serialize(&mut buf).unwrap();
    assert_eq!(buf.position(), 4 + 3 * CHUNK_RECORD_BYTES);
    let first_image = buf.data.clone();

    buf.seek(0);
    store.serialize(&mut buf).unwrap();
    assert_eq!(buf.position(), 4 + 3 * CHUNK_RECORD_BYTES);
    assert_eq!(buf.data, first_image);
}

#[test]
fn deserialize_invalid_gives_empty_store() {
    let mut buf = BufferCursor::new();
    let loaded =
        IncrementalSerializableGrowableData::deserialize(&mut buf, FileIndex::Invalid).unwrap();
    assert_eq!(loaded.items.len(), 0);
}

#[test]
fn truncated_data_is_a_short_read() {
    // nothing at all
    let mut buf = BufferCursor::new();
    let r = IncrementalSerializableGrowableData::deserialize(
        &mut buf,
        FileIndex::Valid { offset: 0, version: 1 },
    );
    assert!(matches!(r, Err(BufIoError::ShortRead)));

    // a count that promises one record, with no record behind it
    let mut buf = BufferCursor::new();
    buf.write_u32(1);
    buf.seek(0);
    let r = IncrementalSerializableGrowableData::deserialize(
        &mut buf,
        FileIndex::Valid { offset: 0, version: 1 },
    );
    assert!(matches!(r, Err(BufIoError::ShortRead)));

    // a record cut off in the middle of its values
    let mut buf = BufferCursor::new();
    buf.write_u32(1);
    buf.write_u32(42);
    for _ in 0..10 {
        buf.write_u32(5);
    }
    buf.seek(0);
    let r = IncrementalSerializableGrowableData::deserialize(
        &mut buf,
        FileIndex::Valid { offset: 0, version: 1 },
    );
    assert!(matches!(r, Err(BufIoError::ShortRead)));
}
