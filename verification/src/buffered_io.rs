use vstd::prelude::*;
use vstd::bytes::{spec_u32_from_le_bytes, spec_u32_to_le_bytes, u32_from_le_bytes, u32_to_le_bytes};

verus! {

/// Error of the byte store. Truncated data surfaces as a short read; nothing
/// else can fail on an in-memory image.
#[derive(Clone, Copy, PartialEq, Eq, Structural, Debug)]
pub enum BufIoError {
    ShortRead,
}

/// The bytes of `d` after writing `b` at position `pos`: bytes outside the
/// written range are kept, a gap between the old end and `pos` reads as
/// zeroes (a hole, as a file gives one), and the data grows when the write
/// passes its end.
pub open spec fn store_bytes(d: Seq<u8>, pos: int, b: Seq<u8>) -> Seq<u8>
    recommends
        0 <= pos,
{
    let n = if d.len() >= pos + b.len() {
        d.len() as int
    } else {
        pos + b.len()
    };
    Seq::new(
        n as nat,
        |i: int|
            if pos <= i && i < pos + b.len() {
                b[i - pos]
            } else if i < d.len() {
                d[i]
            } else {
                0u8
            },
    )
}

/// Writing splits over concatenation: the second part lands right after the
/// first.
pub proof fn lemma_store_bytes_concat(d: Seq<u8>, pos: int, b1: Seq<u8>, b2: Seq<u8>)
    requires
        0 <= pos,
    ensures
        store_bytes(d, pos, b1 + b2) == store_bytes(store_bytes(d, pos, b1), pos + b1.len(), b2),
{
    let lhs = store_bytes(d, pos, b1 + b2);
    let rhs = store_bytes(store_bytes(d, pos, b1), pos + b1.len(), b2);
    assert(lhs =~= rhs);
}

/// Writing the bytes that are already there changes nothing.
pub proof fn lemma_store_bytes_noop(d: Seq<u8>, pos: int, b: Seq<u8>)
    requires
        0 <= pos,
        pos + b.len() <= d.len(),
        d.subrange(pos, pos + b.len() as int) == b,
    ensures
        store_bytes(d, pos, b) == d,
{
    assert forall|i: int| 0 <= i < d.len() implies store_bytes(d, pos, b)[i] == d[i] by {
        if pos <= i && i < pos + b.len() {
            assert(b[i - pos] == d.subrange(pos, pos + b.len() as int)[i - pos]);
        }
    }
    assert(store_bytes(d, pos, b) =~= d);
}

/// What was written reads back.
pub proof fn lemma_store_bytes_read(d: Seq<u8>, pos: int, b: Seq<u8>)
    requires
        0 <= pos,
    ensures
        store_bytes(d, pos, b).subrange(pos, pos + b.len() as int) == b,
{
    assert(store_bytes(d, pos, b).subrange(pos, pos + b.len() as int) =~= b);
}

/// In-memory image of one versioned buffered file, with a read/write cursor:
/// what the chunk store serializes against. The surrounding I/O layer moves
/// the bytes between this image and the file itself.
pub struct BufferCursor {
    pub data: Vec<u8>,
    pub pos: usize,
}

impl BufferCursor {
    /// An empty image with the cursor at the start.
    pub fn new() -> (buf: BufferCursor)
        ensures
            buf.data@ == Seq::<u8>::empty(),
            buf.pos == 0,
    {
        BufferCursor { data: Vec::new(), pos: 0 }
    }

    /// An image over existing bytes, cursor at the start.
    pub fn from_bytes(data: Vec<u8>) -> (buf: BufferCursor)
        ensures
            buf.data@ == data@,
            buf.pos == 0,
    {
        BufferCursor { data, pos: 0 }
    }

    /// Where the cursor stands.
    pub fn position(&self) -> (p: usize)
        ensures
            p == self.pos,
    {
        self.pos
    }

    /// Moves the cursor to an absolute byte offset.
    pub fn seek(&mut self, pos: usize)
        ensures
            final(self).pos == pos,
            final(self).data@ == old(self).data@,
    {
        self.pos = pos;
    }

    /// Writes `v` as four little-endian bytes at the cursor and advances the
    /// cursor past them.
    pub fn write_u32(&mut self, v: u32)
        requires
            old(self).pos + 4 <= usize::MAX,
        ensures
            final(self).data@ == store_bytes(
                old(self).data@,
                old(self).pos as int,
                spec_u32_to_le_bytes(v),
            ),
            final(self).pos == old(self).pos + 4,
    {
        proof {
            vstd::bytes::lemma_auto_spec_u32_to_from_le_bytes();
        }
        let bytes = u32_to_le_bytes(v);
        let ghost orig = self.data@;
        let pos = self.pos;

        while self.data.len() < pos
            invariant
                orig.len() <= self.data@.len(),
                self.data@.len() <= pos || self.data@.len() == orig.len(),
                self.pos == pos,
                forall|i: int|
                    0 <= i < self.data@.len() ==> self.data@[i] == (if i < orig.len() {
                        orig[i]
                    } else {
                        0u8
                    }),
            decreases pos - self.data@.len(),
        {
            self.data.push(0u8);
        }

        let mut k: usize = 0;
        while k < 4
            invariant
                k <= 4,
                bytes@ == spec_u32_to_le_bytes(v),
                bytes@.len() == 4,
                self.pos == pos,
                pos + 4 <= usize::MAX,
                self.data@ =~= store_bytes(orig, pos as int, bytes@.take(k as int)),
                pos + k <= self.data@.len(),
            decreases 4 - k,
        {
            proof {
                assert(bytes@.take(k + 1) =~= bytes@.take(k as int).push(bytes@[k as int]));
                lemma_store_bytes_concat(
                    orig,
                    pos as int,
                    bytes@.take(k as int),
                    seq![bytes@[k as int]],
                );
                assert(bytes@.take(k as int) + seq![bytes@[k as int]] =~= bytes@.take(k + 1));
            }
            let byte = bytes[k];
            if pos + k < self.data.len() {
                self.data[pos + k] = byte;
            } else {
                self.data.push(byte);
            }
            proof {
                assert(self.data@ =~= store_bytes(
                    store_bytes(orig, pos as int, bytes@.take(k as int)),
                    pos + k,
                    seq![bytes@[k as int]],
                ));
            }
            k = k + 1;
        }
        proof {
            assert(bytes@.take(4) =~= bytes@);
        }
        self.pos = pos + 4;
    }

    /// Reads four little-endian bytes at the cursor as a `u32` and advances
    /// the cursor past them; a read past the end of the data fails and moves
    /// nothing.
    pub fn read_u32(&mut self) -> (r: Result<u32, BufIoError>)
        ensures
            final(self).data@ == old(self).data@,
            if old(self).pos + 4 <= old(self).data@.len() {
                r == Ok::<u32, BufIoError>(
                    spec_u32_from_le_bytes(
                        old(self).data@.subrange(old(self).pos as int, old(self).pos + 4),
                    ),
                ) && final(self).pos == old(self).pos + 4
            } else {
                r == Err::<u32, BufIoError>(BufIoError::ShortRead) && final(self).pos == old(
                    self,
                ).pos
            },
    {
        if self.pos <= self.data.len() && self.data.len() - self.pos >= 4 {
            let s = self.data.as_slice();
            let part = &s[self.pos..self.pos + 4];
            let v = u32_from_le_bytes(part);
            self.pos = self.pos + 4;
            Ok(v)
        } else {
            Err(BufIoError::ShortRead)
        }
    }
}

} // verus!
