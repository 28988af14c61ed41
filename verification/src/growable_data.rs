use vstd::prelude::*;

use crate::buffered_io::{
    lemma_store_bytes_concat, lemma_store_bytes_noop, lemma_store_bytes_read, store_bytes,
    BufIoError, BufferCursor,
};
use vstd::bytes::{spec_u32_from_le_bytes, spec_u32_to_le_bytes};

verus! {

/// Number of value slots in one chunk: a format constant.
pub const CHUNK_WIDTH: usize = 64;

/// On-disk width of one chunk record: a version tag and the value slots.
pub const CHUNK_RECORD_BYTES: usize = 4 + CHUNK_WIDTH * 4;

/// The explicit sentinel an unset slot is stored as.
pub const ABSENT_VALUE: u32 = 0xFFFF_FFFF;

/// Fixed-size record of `CHUNK_WIDTH` numeric slots; each slot holds either
/// a value or the absent sentinel. The view is the raw slot contents,
/// sentinel included.
pub struct VectorData {
    values: Vec<u32>,
}

impl View for VectorData {
    type V = Seq<u32>;

    closed spec fn view(&self) -> Seq<u32> {
        self.values@
    }
}

impl VectorData {
    #[verifier::type_invariant]
    spec fn inv(self) -> bool {
        self.values@.len() == CHUNK_WIDTH
    }

    /// A record with every slot unset.
    pub fn new() -> (data: VectorData)
        ensures
            data@.len() == CHUNK_WIDTH,
            forall|i: int| 0 <= i < CHUNK_WIDTH ==> data@[i] == ABSENT_VALUE,
    {
        let mut values: Vec<u32> = Vec::new();
        let mut i: usize = 0;
        while i < CHUNK_WIDTH
            invariant
                i <= CHUNK_WIDTH,
                values@.len() == i,
                forall|j: int| 0 <= j < i ==> values@[j] == ABSENT_VALUE,
            decreases CHUNK_WIDTH - i,
        {
            values.push(ABSENT_VALUE);
            i = i + 1;
        }
        VectorData { values }
    }

    /// A record over the given raw slot contents.
    pub fn from_values(values: Vec<u32>) -> (data: VectorData)
        requires
            values@.len() == CHUNK_WIDTH,
        ensures
            data@ == values@,
    {
        VectorData { values }
    }

    /// The value of slot `i`, or `None` when the slot holds the sentinel.
    pub fn get(&self, i: usize) -> (r: Option<u32>)
        requires
            i < CHUNK_WIDTH,
        ensures
            self@.len() == CHUNK_WIDTH,
            r == if self@[i as int] == ABSENT_VALUE {
                None::<u32>
            } else {
                Some(self@[i as int])
            },
    {
        proof {
            use_type_invariant(self);
        }
        let v = self.values[i];
        if v == ABSENT_VALUE {
            None
        } else {
            Some(v)
        }
    }

    /// Stores `val` into slot `i`; storing the sentinel marks it unset.
    pub fn set(&mut self, i: usize, val: u32)
        requires
            i < CHUNK_WIDTH,
        ensures
            final(self)@ == old(self)@.update(i as int, val),
    {
        proof {
            use_type_invariant(&*self);
        }
        self.values[i] = val;
    }
}

/// One growable chunk: its payload, the version (commit tag) at which it was
/// last written, and whether its bytes already stand in the file.
pub struct GrowableChunk {
    pub data: VectorData,
    pub version: u32,
    pub persisted: bool,
}

/// Location of a serialized store: either "no data yet", or a concrete byte
/// offset inside the file that belongs to `version`.
#[derive(Clone, Copy, PartialEq, Eq, Structural, Debug)]
pub enum FileIndex {
    Invalid,
    Valid { offset: u32, version: u32 },
}

/// Ordered, append-only sequence of growable chunks: one persisted
/// vector-like dataset.
pub struct IncrementalSerializableGrowableData {
    pub items: Vec<GrowableChunk>,
}

/// The little-endian bytes of a sequence of 32-bit values, in order.
pub open spec fn spec_values_bytes(vals: Seq<u32>) -> Seq<u8>
    decreases vals.len(),
{
    if vals.len() == 0 {
        Seq::empty()
    } else {
        spec_values_bytes(vals.drop_last()) + spec_u32_to_le_bytes(vals.last())
    }
}

pub proof fn lemma_values_bytes_len(vals: Seq<u32>)
    ensures
        spec_values_bytes(vals).len() == 4 * vals.len(),
    decreases vals.len(),
{
    vstd::bytes::lemma_auto_spec_u32_to_from_le_bytes();
    if vals.len() > 0 {
        lemma_values_bytes_len(vals.drop_last());
    }
}

/// The fixed-width record of one chunk: its version tag, then its values.
pub open spec fn spec_chunk_bytes(c: GrowableChunk) -> Seq<u8> {
    spec_u32_to_le_bytes(c.version) + spec_values_bytes(c.data@)
}

/// Every chunk's payload has the fixed width.
pub open spec fn wf_chunks(chunks: Seq<GrowableChunk>) -> bool {
    forall|k: int| 0 <= k < chunks.len() ==> (#[trigger] chunks[k]).data@.len() == CHUNK_WIDTH
}

pub proof fn lemma_chunk_bytes_len(c: GrowableChunk)
    requires
        c.data@.len() == CHUNK_WIDTH,
    ensures
        spec_chunk_bytes(c).len() == CHUNK_RECORD_BYTES,
{
    vstd::bytes::lemma_auto_spec_u32_to_from_le_bytes();
    lemma_values_bytes_len(c.data@);
}

/// The bytes of `d` after the chunk records are laid out from `pos` on:
/// a chunk already marked persisted keeps whatever `d` holds in its slot,
/// every other chunk's record is written into its slot.
pub open spec fn spec_write_chunks(d: Seq<u8>, pos: int, chunks: Seq<GrowableChunk>) -> Seq<u8>
    decreases chunks.len(),
{
    if chunks.len() == 0 {
        d
    } else {
        let d2 = if chunks[0].persisted {
            d
        } else {
            store_bytes(d, pos, spec_chunk_bytes(chunks[0]))
        };
        spec_write_chunks(d2, pos + CHUNK_RECORD_BYTES as int, chunks.skip(1))
    }
}

/// The whole effect of one serialization at `pos`: the chunk count, then the
/// records.
pub open spec fn spec_serialize_bytes(d: Seq<u8>, pos: int, chunks: Seq<GrowableChunk>) -> Seq<u8> {
    spec_write_chunks(
        store_bytes(d, pos, spec_u32_to_le_bytes(chunks.len() as u32)),
        pos + 4,
        chunks,
    )
}

/// The chunk count a serialized region at `pos` declares.
pub open spec fn spec_chunk_count(d: Seq<u8>, pos: int) -> int {
    spec_u32_from_le_bytes(d.subrange(pos, pos + 4)) as int
}

/// Does the data reach far enough to hold the whole region declared at
/// `pos`? Reading succeeds exactly when it does.
pub open spec fn spec_decode_fits(d: Seq<u8>, pos: int) -> bool {
    &&& pos + 4 <= d.len()
    &&& pos + 4 + CHUNK_RECORD_BYTES * spec_chunk_count(d, pos) <= d.len()
}

/// Where chunk `k`'s fixed-width record starts inside a region at `pos`.
pub open spec fn spec_record_offset(pos: int, k: int) -> int {
    pos + 4 + CHUNK_RECORD_BYTES * k
}

/// The version tag chunk `k`'s record carries.
pub open spec fn spec_decoded_version(d: Seq<u8>, pos: int, k: int) -> u32 {
    spec_u32_from_le_bytes(
        d.subrange(spec_record_offset(pos, k), spec_record_offset(pos, k) + 4),
    )
}

/// The raw slot values chunk `k`'s record carries.
pub open spec fn spec_decoded_values(d: Seq<u8>, pos: int, k: int) -> Seq<u32> {
    Seq::new(
        CHUNK_WIDTH as nat,
        |j: int|
            spec_u32_from_le_bytes(
                d.subrange(
                    spec_record_offset(pos, k) + 4 + 4 * j,
                    spec_record_offset(pos, k) + 8 + 4 * j,
                ),
            ),
    )
}

/// Laying the records out from `pos` on never shortens the data and never
/// touches a byte below `pos`.
pub proof fn lemma_write_chunks_frame(d: Seq<u8>, pos: int, chunks: Seq<GrowableChunk>)
    requires
        0 <= pos,
    ensures
        d.len() <= spec_write_chunks(d, pos, chunks).len(),
        forall|i: int|
            0 <= i < d.len() && i < pos ==> spec_write_chunks(d, pos, chunks)[i] == d[i],
    decreases chunks.len(),
{
    if chunks.len() > 0 {
        let cb = spec_chunk_bytes(chunks[0]);
        let d2 = if chunks[0].persisted {
            d
        } else {
            store_bytes(d, pos, cb)
        };
        assert(d.len() <= d2.len());
        lemma_write_chunks_frame(d2, pos + CHUNK_RECORD_BYTES as int, chunks.skip(1));
        assert forall|i: int|
            0 <= i < d.len() && i < pos implies spec_write_chunks(d, pos, chunks)[i] == d[i] by {
            assert(d2[i] == d[i]);
        }
    }
}

/// After the layout, chunk `k`'s slot holds exactly its record: written
/// there when the chunk was still pending, kept from `d` when it was already
/// persisted (which is why a persisted chunk's record must already stand in
/// `d`).
pub proof fn lemma_write_chunks_slot(d: Seq<u8>, pos: int, chunks: Seq<GrowableChunk>, k: int)
    requires
        0 <= pos,
        wf_chunks(chunks),
        0 <= k < chunks.len(),
        chunks[k].persisted ==> pos + CHUNK_RECORD_BYTES * (k + 1) <= d.len() && d.subrange(
            pos + CHUNK_RECORD_BYTES * k,
            pos + CHUNK_RECORD_BYTES * (k + 1),
        ) == spec_chunk_bytes(chunks[k]),
    ensures
        pos + CHUNK_RECORD_BYTES * (k + 1) <= spec_write_chunks(d, pos, chunks).len(),
        spec_write_chunks(d, pos, chunks).subrange(
            pos + CHUNK_RECORD_BYTES * k,
            pos + CHUNK_RECORD_BYTES * (k + 1),
        ) == spec_chunk_bytes(chunks[k]),
    decreases chunks.len(),
{
    assert(CHUNK_RECORD_BYTES == 260);
    let res = spec_write_chunks(d, pos, chunks);
    let rb = CHUNK_RECORD_BYTES as int;
    let cb0 = spec_chunk_bytes(chunks[0]);
    let d2 = if chunks[0].persisted {
        d
    } else {
        store_bytes(d, pos, cb0)
    };
    lemma_chunk_bytes_len(chunks[0]);
    assert(wf_chunks(chunks.skip(1))) by {
        assert forall|i: int|
            0 <= i < chunks.skip(1).len() implies (#[trigger] chunks.skip(1)[i]).data@.len()
            == CHUNK_WIDTH by {
            assert(chunks.skip(1)[i] == chunks[i + 1]);
        }
    }
    if k == 0 {
        if chunks[0].persisted {
            assert(d2.len() >= pos + rb);
            assert(d2.subrange(pos, pos + rb) == cb0);
        } else {
            lemma_store_bytes_read(d, pos, cb0);
            assert(d2.len() >= pos + rb);
        }
        lemma_write_chunks_frame(d2, pos + rb, chunks.skip(1));
        assert(res.subrange(pos, pos + rb) =~= d2.subrange(pos, pos + rb));
    } else {
        if chunks[k].persisted {
            assert(d2.len() >= d.len());
            assert(d2.subrange(pos + rb + rb * (k - 1), pos + rb + rb * k) =~= d.subrange(
                pos + rb * k,
                pos + rb * (k + 1),
            ));
        }
        assert(chunks.skip(1)[k - 1] == chunks[k]);
        lemma_write_chunks_slot(d2, pos + rb, chunks.skip(1), k - 1);
        assert(pos + rb + rb * (k - 1) == pos + rb * k);
        assert(pos + rb + rb * k == pos + rb * (k + 1));
    }
}

/// Laying out chunks whose pending records already stand in the data
/// changes nothing at all.
pub proof fn lemma_write_chunks_noop(d: Seq<u8>, pos: int, chunks: Seq<GrowableChunk>)
    requires
        0 <= pos,
        wf_chunks(chunks),
        forall|k: int|
            0 <= k < chunks.len() && !(#[trigger] chunks[k]).persisted ==> pos
                + CHUNK_RECORD_BYTES * (k + 1) <= d.len() && d.subrange(
                pos + CHUNK_RECORD_BYTES * k,
                pos + CHUNK_RECORD_BYTES * (k + 1),
            ) == spec_chunk_bytes(chunks[k]),
    ensures
        spec_write_chunks(d, pos, chunks) == d,
    decreases chunks.len(),
{
    assert(CHUNK_RECORD_BYTES == 260);
    let rb = CHUNK_RECORD_BYTES as int;
    if chunks.len() > 0 {
        if !chunks[0].persisted {
            lemma_chunk_bytes_len(chunks[0]);
            assert(d.subrange(pos + rb * 0, pos + rb * 1) == spec_chunk_bytes(chunks[0]));
            lemma_store_bytes_noop(d, pos, spec_chunk_bytes(chunks[0]));
        }
        assert(wf_chunks(chunks.skip(1))) by {
            assert forall|i: int|
                0 <= i < chunks.skip(1).len() implies (#[trigger] chunks.skip(1)[i]).data@.len()
                == CHUNK_WIDTH by {
                assert(chunks.skip(1)[i] == chunks[i + 1]);
            }
        }
        assert forall|i: int|
            0 <= i < chunks.skip(1).len() && !(#[trigger] chunks.skip(1)[i]).persisted implies (
            pos + rb) + rb * (i + 1) <= d.len() && d.subrange(
                (pos + rb) + rb * i,
                (pos + rb) + rb * (i + 1),
            ) == spec_chunk_bytes(chunks.skip(1)[i]) by {
            assert(chunks.skip(1)[i] == chunks[i + 1]);
            assert(pos + rb * (i + 1) == (pos + rb) + rb * i);
            assert(pos + rb * (i + 2) == (pos + rb) + rb * (i + 1));
        }
        lemma_write_chunks_noop(d, pos + rb, chunks.skip(1));
    }
}

/// The bytes of one value inside a laid-out value area.
pub proof fn lemma_values_bytes_index(vals: Seq<u32>, j: int)
    requires
        0 <= j < vals.len(),
    ensures
        spec_values_bytes(vals).subrange(4 * j, 4 * j + 4) == spec_u32_to_le_bytes(vals[j]),
    decreases vals.len(),
{
    vstd::bytes::lemma_auto_spec_u32_to_from_le_bytes();
    lemma_values_bytes_len(vals.drop_last());
    lemma_values_bytes_len(vals);
    if j == vals.len() - 1 {
        assert(spec_values_bytes(vals).subrange(4 * j, 4 * j + 4) =~= spec_u32_to_le_bytes(
            vals.last(),
        ));
    } else {
        lemma_values_bytes_index(vals.drop_last(), j);
        assert(spec_values_bytes(vals).subrange(4 * j, 4 * j + 4) =~= spec_values_bytes(
            vals.drop_last(),
        ).subrange(4 * j, 4 * j + 4));
    }
}

/// What one record's bytes decode to: the chunk's own version and values.
pub proof fn lemma_chunk_bytes_decode(c: GrowableChunk)
    requires
        c.data@.len() == CHUNK_WIDTH,
    ensures
        spec_u32_from_le_bytes(spec_chunk_bytes(c).subrange(0, 4)) == c.version,
        forall|j: int|
            0 <= j < CHUNK_WIDTH ==> spec_u32_from_le_bytes(
                #[trigger] spec_chunk_bytes(c).subrange(4 + 4 * j, 8 + 4 * j),
            ) == c.data@[j],
{
    vstd::bytes::lemma_auto_spec_u32_to_from_le_bytes();
    lemma_values_bytes_len(c.data@);
    let cb = spec_chunk_bytes(c);
    assert(cb.subrange(0, 4) =~= spec_u32_to_le_bytes(c.version));
    assert forall|j: int|
        0 <= j < CHUNK_WIDTH implies spec_u32_from_le_bytes(
        #[trigger] cb.subrange(4 + 4 * j, 8 + 4 * j),
    ) == c.data@[j] by {
        lemma_values_bytes_index(c.data@, j);
        assert(cb.subrange(4 + 4 * j, 8 + 4 * j) =~= spec_values_bytes(c.data@).subrange(
            4 * j,
            4 * j + 4,
        ));
    }
}

/// Round trip: the region one serialization lays out decodes back to the
/// same chunks — version tags and value arrays, absent sentinels included.
/// A chunk already marked persisted has its record standing in the data
/// from the flush that persisted it, which is the format's own invariant.
#[verifier::rlimit(60)]
pub proof fn lemma_serialize_round_trip(d: Seq<u8>, pos: int, chunks: Seq<GrowableChunk>)
    requires
        0 <= pos,
        wf_chunks(chunks),
        chunks.len() <= u32::MAX,
        forall|k: int|
            0 <= k < chunks.len() && (#[trigger] chunks[k]).persisted ==> spec_record_offset(
                pos,
                k + 1,
            ) <= d.len() && d.subrange(spec_record_offset(pos, k), spec_record_offset(pos, k + 1))
                == spec_chunk_bytes(chunks[k]),
    ensures
        spec_decode_fits(spec_serialize_bytes(d, pos, chunks), pos),
        spec_chunk_count(spec_serialize_bytes(d, pos, chunks), pos) == chunks.len(),
        forall|k: int|
            0 <= k < chunks.len() ==> spec_decoded_version(
                spec_serialize_bytes(d, pos, chunks),
                pos,
                k,
            ) == (#[trigger] chunks[k]).version,
        forall|k: int|
            0 <= k < chunks.len() ==> spec_decoded_values(
                spec_serialize_bytes(d, pos, chunks),
                pos,
                k,
            ) == (#[trigger] chunks[k]).data@,
{
    assert(CHUNK_RECORD_BYTES == 260);
    vstd::bytes::lemma_auto_spec_u32_to_from_le_bytes();
    let rb = CHUNK_RECORD_BYTES as int;
    let cnt = spec_u32_to_le_bytes(chunks.len() as u32);
    let d1 = store_bytes(d, pos, cnt);
    let d2 = spec_write_chunks(d1, pos + 4, chunks);
    assert(d2 == spec_serialize_bytes(d, pos, chunks));

    lemma_store_bytes_read(d, pos, cnt);
    lemma_write_chunks_frame(d1, pos + 4, chunks);
    assert(d2.subrange(pos, pos + 4) =~= d1.subrange(pos, pos + 4));
    assert(spec_chunk_count(d2, pos) == chunks.len());

    assert forall|k: int|
        0 <= k < chunks.len() && (#[trigger] chunks[k]).persisted implies (pos + 4) + rb * (k + 1)
        <= d1.len() && d1.subrange((pos + 4) + rb * k, (pos + 4) + rb * (k + 1))
        == spec_chunk_bytes(chunks[k]) by {
        assert(spec_record_offset(pos, k) == (pos + 4) + rb * k);
        assert(spec_record_offset(pos, k + 1) == (pos + 4) + rb * (k + 1));
        assert(d1.len() >= d.len());
        assert(d1.subrange((pos + 4) + rb * k, (pos + 4) + rb * (k + 1)) =~= d.subrange(
            spec_record_offset(pos, k),
            spec_record_offset(pos, k + 1),
        ));
    }

    if chunks.len() == 0 {
        assert(spec_decode_fits(d2, pos));
    } else {
        lemma_write_chunks_slot(d1, pos + 4, chunks, chunks.len() - 1);
        assert(spec_decode_fits(d2, pos));
    }

    assert forall|k: int| 0 <= k < chunks.len() implies spec_decoded_version(d2, pos, k) == (
    #[trigger] chunks[k]).version && spec_decoded_values(d2, pos, k) == chunks[k].data@ by {
        lemma_write_chunks_slot(d1, pos + 4, chunks, k);
        lemma_chunk_bytes_decode(chunks[k]);
        lemma_chunk_bytes_len(chunks[k]);
        let rec = spec_record_offset(pos, k);
        let cb = spec_chunk_bytes(chunks[k]);
        assert(rb * (k + 1) == rb * k + rb) by (nonlinear_arith);
        assert(rec == (pos + 4) + rb * k);
        assert(rec + rb == (pos + 4) + rb * (k + 1));
        assert(d2.subrange(rec, rec + rb) == cb);
        assert(d2.subrange(rec, rec + 4) =~= cb.subrange(0, 4));
        assert forall|j: int|
            0 <= j < CHUNK_WIDTH implies spec_decoded_values(d2, pos, k)[j] == chunks[k].data@[j]
            by {
            assert(d2.subrange(rec + 4 + 4 * j, rec + 8 + 4 * j) =~= cb.subrange(
                4 + 4 * j,
                8 + 4 * j,
            ));
        }
        assert(spec_decoded_values(d2, pos, k) =~= chunks[k].data@);
    }
}

/// Serializing an unchanged store a second time lays out byte for byte what
/// the first serialization left: persisted chunks are skipped, and pending
/// chunks rewrite their own bytes in place.
pub proof fn lemma_serialize_idempotent(d: Seq<u8>, pos: int, chunks: Seq<GrowableChunk>)
    requires
        0 <= pos,
        wf_chunks(chunks),
        chunks.len() <= u32::MAX,
    ensures
        spec_serialize_bytes(spec_serialize_bytes(d, pos, chunks), pos, chunks)
            == spec_serialize_bytes(d, pos, chunks),
{
    assert(CHUNK_RECORD_BYTES == 260);
    vstd::bytes::lemma_auto_spec_u32_to_from_le_bytes();
    let rb = CHUNK_RECORD_BYTES as int;
    let cnt = spec_u32_to_le_bytes(chunks.len() as u32);
    let d1 = store_bytes(d, pos, cnt);
    let d2 = spec_write_chunks(d1, pos + 4, chunks);
    assert(d2 == spec_serialize_bytes(d, pos, chunks));

    lemma_store_bytes_read(d, pos, cnt);
    lemma_write_chunks_frame(d1, pos + 4, chunks);
    assert(d2.subrange(pos, pos + 4) =~= cnt);
    lemma_store_bytes_noop(d2, pos, cnt);

    assert forall|k: int|
        0 <= k < chunks.len() && !(#[trigger] chunks[k]).persisted implies (pos + 4) + rb * (k + 1)
        <= d2.len() && d2.subrange((pos + 4) + rb * k, (pos + 4) + rb * (k + 1))
        == spec_chunk_bytes(chunks[k]) by {
        lemma_write_chunks_slot(d1, pos + 4, chunks, k);
    }
    lemma_write_chunks_noop(d2, pos + 4, chunks);
}

/// Writes the `CHUNK_WIDTH` raw slot values at the cursor.
fn write_values(bufman: &mut BufferCursor, data: &VectorData)
    requires
        old(bufman).pos + 4 * CHUNK_WIDTH <= usize::MAX,
        old(bufman).pos <= old(bufman).data@.len(),
    ensures
        final(bufman).data@ == store_bytes(
            old(bufman).data@,
            old(bufman).pos as int,
            spec_values_bytes(data@),
        ),
        final(bufman).pos == old(bufman).pos + 4 * CHUNK_WIDTH,
{
    proof {
        use_type_invariant(data);
        vstd::bytes::lemma_auto_spec_u32_to_from_le_bytes();
    }
    let ghost orig = bufman.data@;
    let ghost pos0 = bufman.pos as int;
    proof {
        assert(store_bytes(orig, pos0, Seq::<u8>::empty()) =~= orig);
    }
    let mut j: usize = 0;
    while j < CHUNK_WIDTH
        invariant
            data@.len() == CHUNK_WIDTH,
            j <= CHUNK_WIDTH,
            0 <= pos0,
            pos0 + 4 * CHUNK_WIDTH <= usize::MAX,
            bufman.pos == pos0 + 4 * j,
            bufman.data@ == store_bytes(orig, pos0, spec_values_bytes(data@.take(j as int))),
        decreases CHUNK_WIDTH - j,
    {
        proof {
            vstd::bytes::lemma_auto_spec_u32_to_from_le_bytes();
            assert(data@.take(j + 1).drop_last() =~= data@.take(j as int));
            assert(data@.take(j + 1).last() == data@[j as int]);
            lemma_values_bytes_len(data@.take(j as int));
            lemma_store_bytes_concat(
                orig,
                pos0,
                spec_values_bytes(data@.take(j as int)),
                spec_u32_to_le_bytes(data@[j as int]),
            );
        }
        let v = data.values[j];
        bufman.write_u32(v);
        j = j + 1;
    }
    proof {
        assert(data@.take(CHUNK_WIDTH as int) =~= data@);
    }
}

impl IncrementalSerializableGrowableData {
    /// An empty store.
    pub fn new() -> (store: IncrementalSerializableGrowableData)
        ensures
            store.items@.len() == 0,
    {
        IncrementalSerializableGrowableData { items: Vec::new() }
    }

    /// Appends a chunk at the logical end of the store.
    pub fn push(&mut self, chunk: GrowableChunk)
        ensures
            final(self).items@ == old(self).items@.push(chunk),
    {
        self.items.push(chunk);
    }

    /// Writes the chunk count and then every chunk's fixed-width record at
    /// the cursor. A chunk already marked persisted is not re-emitted: the
    /// cursor skips its slot, so every chunk keeps a constant-size,
    /// independently addressable slot. Returns the starting byte offset of
    /// the serialized region.
    pub fn serialize(&self, bufman: &mut BufferCursor) -> (r: Result<u32, BufIoError>)
        requires
            old(bufman).pos + 4 + CHUNK_RECORD_BYTES * self.items@.len() <= u32::MAX,
        ensures
            r == Ok::<u32, BufIoError>(old(bufman).pos as u32),
            final(bufman).data@ == spec_serialize_bytes(
                old(bufman).data@,
                old(bufman).pos as int,
                self.items@,
            ),
            final(bufman).pos == old(bufman).pos + 4 + CHUNK_RECORD_BYTES * self.items@.len(),
    {
        let start = bufman.position();
        let total_items = self.items.len();
        bufman.write_u32(total_items as u32);

        let ghost d1 = bufman.data@;
        let ghost target = spec_write_chunks(d1, start + 4, self.items@);
        proof {
            assert(self.items@.skip(0) =~= self.items@);
            assert(u32::MAX as int <= usize::MAX as int);
            assert(CHUNK_RECORD_BYTES == 260);
        }
        let mut k: usize = 0;
        while k < total_items
            invariant
                total_items == self.items@.len(),
                k <= total_items,
                start + 4 + CHUNK_RECORD_BYTES * total_items <= u32::MAX,
                u32::MAX as int <= usize::MAX as int,
                CHUNK_RECORD_BYTES == 260,
                bufman.pos == start + 4 + CHUNK_RECORD_BYTES * k,
                spec_write_chunks(bufman.data@, bufman.pos as int, self.items@.skip(k as int))
                    == target,
            decreases total_items - k,
        {
            proof {
                assert(self.items@.skip(k as int)[0] == self.items@[k as int]);
                assert(self.items@.skip(k as int).skip(1) =~= self.items@.skip(k + 1));
                assert(CHUNK_RECORD_BYTES * (k as int + 1) <= CHUNK_RECORD_BYTES * (
                total_items as int)) by (nonlinear_arith)
                    requires
                        k as int + 1 <= total_items as int,
                        CHUNK_RECORD_BYTES == 260,
                ;
                assert(bufman.pos + CHUNK_RECORD_BYTES <= u32::MAX);
            }
            let chunk = &self.items[k];
            if chunk.persisted {
                let p = bufman.position();
                bufman.seek(p + CHUNK_RECORD_BYTES);
            } else {
                proof {
                    use_type_invariant(&chunk.data);
                    vstd::bytes::lemma_auto_spec_u32_to_from_le_bytes();
                    lemma_store_bytes_concat(
                        bufman.data@,
                        bufman.pos as int,
                        spec_u32_to_le_bytes(self.items@[k as int].version),
                        spec_values_bytes(self.items@[k as int].data@),
                    );
                }
                bufman.write_u32(chunk.version);
                write_values(bufman, &chunk.data);
            }
            k = k + 1;
        }
        proof {
            assert(self.items@.skip(total_items as int) =~= Seq::<GrowableChunk>::empty());
        }
        Ok(start as u32)
    }

    /// Reads a store back. "No data" gives an empty store; a concrete
    /// location gives the declared number of fixed-width records, each
    /// reconstructed as a chunk that is marked persisted and tagged with its
    /// own version. Truncated data fails with a short read, and succeeds
    /// exactly when the whole declared region is there.
    pub fn deserialize(bufman: &mut BufferCursor, file_index: FileIndex) -> (r: Result<
        IncrementalSerializableGrowableData,
        BufIoError,
    >)
        ensures
            final(bufman).data@ == old(bufman).data@,
            match file_index {
                FileIndex::Invalid => r is Ok && r->Ok_0.items@.len() == 0 && final(bufman).pos
                    == old(bufman).pos,
                FileIndex::Valid { offset, version } => {
                    if spec_decode_fits(old(bufman).data@, offset as int) {
                        &&& r is Ok
                        &&& r->Ok_0.items@.len() == spec_chunk_count(
                            old(bufman).data@,
                            offset as int,
                        )
                        &&& forall|k: int|
                            0 <= k < r->Ok_0.items@.len() ==> {
                                let c = #[trigger] r->Ok_0.items@[k];
                                &&& c.version == spec_decoded_version(
                                    old(bufman).data@,
                                    offset as int,
                                    k,
                                )
                                &&& c.data@ == spec_decoded_values(
                                    old(bufman).data@,
                                    offset as int,
                                    k,
                                )
                                &&& c.persisted == true
                            }
                        &&& final(bufman).pos == offset + 4 + CHUNK_RECORD_BYTES
                            * spec_chunk_count(old(bufman).data@, offset as int)
                    } else {
                        r == Err::<IncrementalSerializableGrowableData, BufIoError>(
                            BufIoError::ShortRead,
                        )
                    }
                },
            },
    {
        let (offset, file_version) = match file_index {
            FileIndex::Invalid => {
                return Ok(IncrementalSerializableGrowableData::new());
            },
            FileIndex::Valid { offset, version } => (offset, version),
        };
        let ghost d = bufman.data@;
        let ghost off = offset as int;
        bufman.seek(offset as usize);
        let total = match bufman.read_u32() {
            Ok(v) => v,
            Err(e) => {
                return Err(e);
            },
        };
        let total_items = total as usize;
        proof {
            assert(CHUNK_RECORD_BYTES == 260);
        }

        let mut items: Vec<GrowableChunk> = Vec::new();
        let mut k: usize = 0;
        while k < total_items
            invariant
                bufman.data@ == d,
                d == old(bufman).data@,
                file_index == (FileIndex::Valid { offset, version: file_version }),
                off == offset as int,
                CHUNK_RECORD_BYTES == 260,
                total_items == spec_chunk_count(d, off),
                0 <= off,
                off + 4 <= d.len(),
                k <= total_items,
                items@.len() == k,
                bufman.pos == spec_record_offset(off, k as int),
                bufman.pos <= d.len(),
                forall|i: int|
                    0 <= i < k ==> {
                        let c = #[trigger] items@[i];
                        &&& c.version == spec_decoded_version(d, off, i)
                        &&& c.data@ == spec_decoded_values(d, off, i)
                        &&& c.persisted == true
                    },
            decreases total_items - k,
        {
            let ghost rec = spec_record_offset(off, k as int);
            proof {
                assert(CHUNK_RECORD_BYTES * (k as int + 1) <= CHUNK_RECORD_BYTES * (
                total_items as int)) by (nonlinear_arith)
                    requires
                        k as int + 1 <= total_items as int,
                        CHUNK_RECORD_BYTES == 260,
                ;
            }
            let version = match bufman.read_u32() {
                Ok(v) => v,
                Err(e) => {
                    proof {
                        assert(!spec_decode_fits(d, off));
                    }
                    return Err(e);
                },
            };

            let mut values: Vec<u32> = Vec::new();
            let mut j: usize = 0;
            while j < CHUNK_WIDTH
                invariant
                    bufman.data@ == d,
                    d == old(bufman).data@,
                    file_index == (FileIndex::Valid { offset, version: file_version }),
                    off == offset as int,
                    CHUNK_RECORD_BYTES == 260,
                    total_items == spec_chunk_count(d, off),
                    0 <= off,
                    off + 4 <= d.len(),
                    k < total_items,
                    rec == spec_record_offset(off, k as int),
                    CHUNK_RECORD_BYTES * (k as int + 1) <= CHUNK_RECORD_BYTES * (
                    total_items as int),
                    j <= CHUNK_WIDTH,
                    values@.len() == j,
                    bufman.pos == rec + 4 + 4 * j,
                    bufman.pos <= d.len(),
                    forall|i: int|
                        0 <= i < j ==> values@[i] == spec_u32_from_le_bytes(
                            #[trigger] d.subrange(rec + 4 + 4 * i, rec + 8 + 4 * i),
                        ),
                decreases CHUNK_WIDTH - j,
            {
                let v = match bufman.read_u32() {
                    Ok(v) => v,
                    Err(e) => {
                        proof {
                            assert(rec + CHUNK_RECORD_BYTES <= off + 4 + CHUNK_RECORD_BYTES
                                * spec_chunk_count(d, off));
                            assert(!spec_decode_fits(d, off));
                        }
                        return Err(e);
                    },
                };
                values.push(v);
                j = j + 1;
            }
            let data = VectorData::from_values(values);
            proof {
                assert(data@ =~= spec_decoded_values(d, off, k as int));
            }
            items.push(GrowableChunk { data, version, persisted: true });
            k = k + 1;
        }
        Ok(IncrementalSerializableGrowableData { items })
    }
}

} // verus!
