use vstd::prelude::*;

use vstd::slice::{slice_subrange, slice_to_vec};

use crate::error::AppError;

verus! {

/// The truncating state of a sized streaming response.
///
/// A ranged read serves exactly `size` bytes. The chunks drawn from the
/// underlying reader do not know that bound, so the stream counts the bytes
/// it has consumed and cuts the output off at `size`, even when the reader
/// would yield more.
pub struct RangeStream {
    /// How many bytes the stream is allowed to emit in total.
    pub size: u64,
    /// How many bytes of the underlying reader were consumed so far.
    pub read_bytes: u64,
}

/// The verdict of the stream on one chunk drawn from the reader.
pub enum RangeChunk {
    /// Bytes to hand to the consumer.
    Data(Vec<u8>),
    /// An empty chunk: nothing to emit, the stream goes on.
    Skip,
    /// The budget was already exhausted: the stream terminates.
    Finished,
}

/// What one poll step emits, given the stream's budget, the bytes consumed so
/// far and the chunk drawn from the reader; `None` when nothing is emitted.
pub open spec fn poll_emits(size: u64, read_bytes: int, chunk: Seq<u8>) -> Option<Seq<u8>> {
    if chunk.len() == 0 {
        None
    } else if read_bytes >= size {
        None
    } else if read_bytes + chunk.len() > size {
        Some(chunk.take(size - read_bytes))
    } else {
        Some(chunk)
    }
}

/// The bytes consumed after one poll step.
pub open spec fn poll_next_read(read_bytes: int, chunk: Seq<u8>) -> int {
    read_bytes + chunk.len()
}

/// All the bytes the stream emits when the given chunks are drawn in order,
/// starting from `read_bytes` consumed.
pub open spec fn emitted_from(size: u64, read_bytes: int, chunks: Seq<Seq<u8>>) -> Seq<u8>
    decreases chunks.len(),
{
    if chunks.len() == 0 {
        Seq::empty()
    } else {
        (match poll_emits(size, read_bytes, chunks[0]) {
            Some(d) => d,
            None => Seq::empty(),
        }) + emitted_from(size, poll_next_read(read_bytes, chunks[0]), chunks.skip(1))
    }
}

impl RangeStream {
    /// A fresh stream that will emit at most `size` bytes.
    pub fn new(size: u64) -> (s: RangeStream)
        ensures
            s.size == size,
            s.read_bytes == 0,
    {
        RangeStream { size, read_bytes: 0 }
    }

    /// Judge one chunk drawn from the underlying reader: forward it, cut it
    /// down to the remaining budget, skip it when empty, or end the stream.
    pub fn poll_chunk(&mut self, chunk: &Vec<u8>) -> (r: RangeChunk)
        requires
            old(self).read_bytes + chunk@.len() <= u64::MAX,
        ensures
            final(self).size == old(self).size,
            final(self).read_bytes == poll_next_read(old(self).read_bytes as int, chunk@),
            chunk@.len() == 0 ==> r is Skip,
            chunk@.len() > 0 && old(self).read_bytes >= old(self).size ==> r is Finished,
            chunk@.len() > 0 && old(self).read_bytes < old(self).size ==> (r matches
            RangeChunk::Data(d) && Some(d@) == poll_emits(
                old(self).size,
                old(self).read_bytes as int,
                chunk@,
            )),
    {
        let len = chunk.len() as u64;
        if len == 0 {
            return RangeChunk::Skip;
        }
        let ret: RangeChunk;
        if self.read_bytes >= self.size {
            ret = RangeChunk::Finished;
        } else if self.read_bytes + len > self.size {
            let overflow = (self.size - self.read_bytes) as usize;
            let part = slice_to_vec(slice_subrange(chunk.as_slice(), 0, overflow));
            proof {
                assert(part@ =~= chunk@.take(self.size - self.read_bytes));
            }
            ret = RangeChunk::Data(part);
        } else {
            ret = RangeChunk::Data(slice_to_vec(chunk.as_slice()));
        }
        self.read_bytes = self.read_bytes + len;
        ret
    }
}

/// A byte sub-range of an in-memory file image.
///
/// The caller is owed the exact slice whenever `start <= end <= len`; any
/// other pair is a `RangeError`. A no-range request is the full-file pair
/// `(0, len)`.
pub fn open_range(contents: &Vec<u8>, start: u64, end: u64) -> (r: Result<Vec<u8>, AppError>)
    ensures
        start <= end <= contents@.len() ==> (r matches Ok(d) && d@ == contents@.subrange(
            start as int,
            end as int,
        )),
        !(start <= end <= contents@.len()) ==> r == Err::<Vec<u8>, AppError>(AppError::RangeError),
{
    if !(start <= end && end <= contents.len() as u64) {
        return Err(AppError::RangeError);
    }
    let s = slice_subrange(contents.as_slice(), start as usize, end as usize);
    Ok(slice_to_vec(s))
}

/// Feeding chunks through the stream truncates their concatenation to the
/// remaining budget: starting from `read_bytes` consumed, the stream emits
/// the first `size - read_bytes` of the concatenated bytes (all of them, if
/// fewer), and nothing once the budget is spent.
pub proof fn lemma_emitted_truncates(size: u64, read_bytes: int, chunks: Seq<Seq<u8>>)
    requires
        0 <= read_bytes,
    ensures
        read_bytes >= size ==> emitted_from(size, read_bytes, chunks) == Seq::<u8>::empty(),
        read_bytes < size ==> emitted_from(size, read_bytes, chunks) == (
        if chunks.flatten().len() <= size - read_bytes {
            chunks.flatten()
        } else {
            chunks.flatten().take(size - read_bytes)
        }),
    decreases chunks.len(),
{
    if chunks.len() == 0 {
        assert(chunks.flatten() =~= Seq::<u8>::empty());
    } else {
        let c = chunks[0];
        let rest = chunks.skip(1);
        assert(chunks.drop_first() =~= rest);
        assert(chunks.flatten() == c + rest.flatten());
        lemma_emitted_truncates(size, read_bytes + c.len(), rest);
        if read_bytes >= size {
            assert(emitted_from(size, read_bytes, chunks) =~= Seq::<u8>::empty());
        } else if read_bytes + c.len() > size {
            assert(emitted_from(size, read_bytes, chunks) =~= c.take(size - read_bytes));
            assert((c + rest.flatten()).take(size - read_bytes) =~= c.take(size - read_bytes));
        } else {
            if rest.flatten().len() <= size - read_bytes - c.len() {
                assert(emitted_from(size, read_bytes, chunks) =~= c + rest.flatten());
            } else {
                assert(emitted_from(size, read_bytes, chunks) =~= c + rest.flatten().take(
                    size - read_bytes - c.len(),
                ));
                assert((c + rest.flatten()).take(size - read_bytes) =~= c + rest.flatten().take(
                    size - read_bytes - c.len(),
                ));
            }
        }
    }
}

/// The ranged-read law: when the reader was positioned at `start` of a file
/// and the stream's budget is `end - start`, the emitted bytes are exactly
/// the slice `[start, end)` of the file, whatever chunking the reader chose.
pub proof fn lemma_range_stream_serves_slice(
    contents: Seq<u8>,
    start: u64,
    end: u64,
    chunks: Seq<Seq<u8>>,
)
    requires
        start <= end <= contents.len(),
        chunks.flatten() == contents.skip(start as int),
    ensures
        emitted_from((end - start) as u64, 0, chunks) == contents.subrange(
            start as int,
            end as int,
        ),
{
    lemma_emitted_truncates((end - start) as u64, 0, chunks);
    if end == start {
        assert(emitted_from((end - start) as u64, 0, chunks) =~= contents.subrange(
            start as int,
            end as int,
        ));
    } else {
        assert(contents.skip(start as int).take(end - start) =~= contents.subrange(
            start as int,
            end as int,
        ));
        if chunks.flatten().len() <= end - start {
            assert(chunks.flatten() =~= contents.subrange(start as int, end as int));
        }
    }
}

} // verus!
