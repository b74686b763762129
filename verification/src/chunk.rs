//! The chunk table that follows the fixed header.

use vstd::prelude::*;

use crate::bytes::{le_u32, le_u64, lemma_le_bounds, read_array4, read_u32_le, read_u64_le};
use crate::error::ParseError;
use crate::header::{FourCc, Sai2Header, HEADER_LEN};

verus! {

/// Size of one entry in the SAI2 chunk table.
pub const CHUNK_ENTRY_LEN: usize = 16;

/// Byte position just past a table of `count` entries.
pub open spec fn table_end(count: int) -> int {
    64 + count * 16
}

/// Whether a table of `count` entries can be addressed on this platform.
pub open spec fn table_fits(count: int) -> bool {
    table_end(count) <= usize::MAX
}

/// Position of entry `i` of the chunk table.
pub open spec fn entry_pos(i: int) -> int {
    64 + i * 16
}

/// The absolute body offset stored in entry `i`.
pub open spec fn entry_offset(s: Seq<u8>, i: int) -> int {
    le_u64(s, entry_pos(i) + 8)
}

/// Entry `i` points neither into the header/table nor beyond the input.
pub open spec fn offset_in_range(s: Seq<u8>, count: int, i: int) -> bool {
    table_end(count) <= entry_offset(s, i) <= s.len()
}

/// Entry `i` does not point before the entry that precedes it.
pub open spec fn offset_ordered(s: Seq<u8>, i: int) -> bool {
    i == 0 || entry_offset(s, i - 1) <= entry_offset(s, i)
}

pub open spec fn entry_ok(s: Seq<u8>, count: int, i: int) -> bool {
    offset_in_range(s, count, i) && offset_ordered(s, i)
}

/// Where the body of entry `i` ends: at the next entry's offset, or at the
/// end of the input for the last entry.
pub open spec fn chunk_end(s: Seq<u8>, count: int, i: int) -> int {
    if i + 1 < count {
        entry_offset(s, i + 1)
    } else {
        s.len() as int
    }
}

/// Entry `k` is the first entry that is out of range or out of order.
pub open spec fn first_failure(s: Seq<u8>, count: int, k: int) -> bool {
    &&& 0 <= k < count
    &&& !entry_ok(s, count, k)
    &&& forall|j: int| 0 <= j < k ==> entry_ok(s, count, j)
}

/// The error reported for the first failing entry `k`.
pub open spec fn failure_error(s: Seq<u8>, count: int, k: int) -> ParseError {
    if !offset_in_range(s, count, k) {
        ParseError::InvalidChunkOffset {
            index: k as usize,
            offset: entry_offset(s, k) as u64,
            table_end: table_end(count) as usize,
            file_len: s.len() as usize,
        }
    } else {
        ParseError::ChunkOffsetsOutOfOrder {
            previous_index: (k - 1) as usize,
            previous_offset: entry_offset(s, k - 1) as u64,
            index: k as usize,
            offset: entry_offset(s, k) as u64,
        }
    }
}

/// Whether every table entry is in range and ordered.
pub open spec fn table_valid(s: Seq<u8>, count: int) -> bool {
    &&& table_fits(count)
    &&& s.len() >= table_end(count)
    &&& forall|i: int| 0 <= i < count ==> entry_ok(s, count, i)
}

/// The outcome of parsing a table of `count` entries from the document `s`.
pub open spec fn chunk_table_outcome(
    s: Seq<u8>,
    count: int,
    r: Result<Seq<Chunk>, ParseError>,
) -> bool {
    if !table_fits(count) {
        r == Err::<Seq<Chunk>, ParseError>(ParseError::InvalidChunkCount { count: count as u32 })
    } else if s.len() < table_end(count) {
        r == Err::<Seq<Chunk>, ParseError>(
            ParseError::Truncated { expected: table_end(count) as usize, actual: s.len() as usize },
        )
    } else if table_valid(s, count) {
        r matches Ok(v) && v.len() == count && forall|i: int|
            0 <= i < count ==> #[trigger] v[i].parsed_from(s, count, i)
    } else {
        exists|k: int| first_failure(s, count, k) && r == Err::<Seq<Chunk>, ParseError>(failure_error(s, count, k))
    }
}

/// Metadata for one chunk body in a SAI2 document.
#[derive(Debug, Clone, Copy, PartialEq, Eq)]
pub struct Chunk {
    kind: FourCc,
    object_id: u32,
    offset: u64,
    size: usize,
}

#[derive(Clone, Copy)]
struct RawChunk {
    kind: FourCc,
    object_id: u32,
    offset: u64,
}

impl Chunk {
    pub closed spec fn spec_kind(&self) -> FourCc {
        self.kind
    }

    pub closed spec fn spec_object_id(&self) -> u32 {
        self.object_id
    }

    pub closed spec fn spec_offset(&self) -> u64 {
        self.offset
    }

    pub closed spec fn spec_size(&self) -> usize {
        self.size
    }

    /// This chunk is entry `i` of the `count`-entry table of `s`.
    pub open spec fn parsed_from(&self, s: Seq<u8>, count: int, i: int) -> bool {
        &&& self.kind().as_bytes()@ == s.subrange(entry_pos(i), entry_pos(i) + 4)
        &&& self.object_id() as int == le_u32(s, entry_pos(i) + 4)
        &&& self.offset() as int == entry_offset(s, i)
        &&& self.size() as int == chunk_end(s, count, i) - entry_offset(s, i)
    }

    /// The chunk body lies within an input of `len` bytes.
    pub open spec fn within(&self, len: int) -> bool {
        self.offset() + self.size() <= len
    }

    /// Parses the complete chunk table of `input`, whose header declares
    /// `header.chunk_count()` entries, and derives each body's size from the
    /// following entry's offset (or the end of the input).
    #[verifier::spinoff_prover]
    pub fn parse_all(input: &[u8], header: &Sai2Header) -> (r: Result<Vec<Self>, ParseError>)
        ensures
            chunk_table_outcome(
                input@,
                header.chunk_count() as int,
                match r {
                    Ok(v) => Ok(v@),
                    Err(e) => Err(e),
                },
            ),
    {
        let count32 = header.chunk_count();
        let count = count32 as usize;
        let ghost s = input@;
        let ghost c = count as int;
        let table_len = match count.checked_mul(CHUNK_ENTRY_LEN) {
            Some(v) => v,
            None => {
                return Err(ParseError::InvalidChunkCount { count: count32 });
            },
        };
        let table_end_pos = match HEADER_LEN.checked_add(table_len) {
            Some(v) => v,
            None => {
                return Err(ParseError::InvalidChunkCount { count: count32 });
            },
        };
        assert(table_end_pos as int == table_end(c));
        if input.len() < table_end_pos {
            return Err(ParseError::Truncated { expected: table_end_pos, actual: input.len() });
        }
        // Allocation is delayed until the complete table is known to fit in
        // the input, so an untrusted count cannot cause arbitrary allocation.
        let mut entries: Vec<RawChunk> = Vec::with_capacity(count);
        let mut index: usize = 0;
        while index < count
            invariant
                s == input@,
                c == count,
                c == header.chunk_count() as int,
                table_end_pos as int == table_end(c),
                input@.len() >= table_end_pos,
                input@.len() == input.len(),
                index <= count,
                entries@.len() == index,
                forall|j: int|
                    0 <= j < index ==> {
                        &&& (#[trigger] entries@[j]).kind.as_bytes()@ == s.subrange(entry_pos(j), entry_pos(j) + 4)
                        &&& entries@[j].object_id as int == le_u32(s, entry_pos(j) + 4)
                        &&& entries@[j].offset as int == entry_offset(s, j)
                    },
            decreases count - index,
        {
            let entry_offset_pos = HEADER_LEN + index * CHUNK_ENTRY_LEN;
            entries.push(
                RawChunk {
                    kind: FourCc::from_bytes(read_array4(input, entry_offset_pos)),
                    object_id: read_u32_le(input, entry_offset_pos + 4),
                    offset: read_u64_le(input, entry_offset_pos + 8),
                },
            );
            index = index + 1;
        }
        let file_len = input.len() as u64;
        let mut index: usize = 0;
        while index < count
            invariant
                s == input@,
                c == count,
                c == header.chunk_count() as int,
                table_end_pos as int == table_end(c),
                input@.len() >= table_end_pos,
                input@.len() == input.len(),
                file_len == input@.len(),
                index <= count,
                entries@.len() == count,
                forall|j: int| 0 <= j < count ==> (#[trigger] entries@[j]).offset as int == entry_offset(s, j),
                forall|j: int| 0 <= j < index ==> entry_ok(s, c, j),
            decreases count - index,
        {
            let offset = entries[index].offset;
            if offset < table_end_pos as u64 || offset > file_len {
                assert(first_failure(s, c, index as int));
                assert(!table_valid(s, c));
                assert(failure_error(s, c, index as int) == ParseError::InvalidChunkOffset {
                    index,
                    offset,
                    table_end: table_end_pos,
                    file_len: input.len(),
                });
                assert(table_fits(c));
                assert(!(s.len() < table_end(c)));
                assert(chunk_table_outcome(s, c, Err(failure_error(s, c, index as int))));
                return Err(
                    ParseError::InvalidChunkOffset {
                        index,
                        offset,
                        table_end: table_end_pos,
                        file_len: input.len(),
                    },
                );
            }
            if index > 0 {
                let previous = entries[index - 1].offset;
                if previous > offset {
                    assert(first_failure(s, c, index as int));
                    assert(!table_valid(s, c));
                    assert(failure_error(s, c, index as int) == ParseError::ChunkOffsetsOutOfOrder {
                        previous_index: (index - 1) as usize,
                        previous_offset: previous,
                        index,
                        offset,
                    });
                    return Err(
                        ParseError::ChunkOffsetsOutOfOrder {
                            previous_index: index - 1,
                            previous_offset: previous,
                            index,
                            offset,
                        },
                    );
                }
            }
            assert(entry_ok(s, c, index as int));
            index = index + 1;
        }
        let mut chunks: Vec<Chunk> = Vec::with_capacity(count);
        let mut index: usize = 0;
        while index < count
            invariant
                s == input@,
                c == count,
                c == header.chunk_count() as int,
                table_end_pos as int == table_end(c),
                input@.len() >= table_end_pos,
                input@.len() == input.len(),
                table_valid(s, c),
                index <= count,
                entries@.len() == count,
                forall|j: int|
                    0 <= j < count ==> {
                        &&& (#[trigger] entries@[j]).kind.as_bytes()@ == s.subrange(entry_pos(j), entry_pos(j) + 4)
                        &&& entries@[j].object_id as int == le_u32(s, entry_pos(j) + 4)
                        &&& entries@[j].offset as int == entry_offset(s, j)
                    },
                chunks@.len() == index,
                forall|j: int| 0 <= j < index ==> (#[trigger] chunks@[j]).parsed_from(s, c, j),
            decreases count - index,
        {
            let entry = entries[index];
            assert(entry_ok(s, c, index as int));
            assert(input@.len() <= usize::MAX);
            let end = if index + 1 < count {
                assert(entry_ok(s, c, index + 1));
                entries[index + 1].offset as usize
            } else {
                input.len()
            };
            assert(end as int == chunk_end(s, c, index as int));
            let chunk = Chunk {
                kind: entry.kind,
                object_id: entry.object_id,
                offset: entry.offset,
                size: end - entry.offset as usize,
            };
            assert(chunk.parsed_from(s, c, index as int));
            chunks.push(chunk);
            index = index + 1;
        }
        Ok(chunks)
    }

    /// Returns the exact four-byte chunk type.
    #[verifier::when_used_as_spec(spec_kind)]
    pub fn kind(&self) -> (r: FourCc)
        ensures
            r == self.spec_kind(),
    {
        self.kind
    }

    /// Returns the object identifier associated with this chunk.
    #[verifier::when_used_as_spec(spec_object_id)]
    pub fn object_id(&self) -> (r: u32)
        ensures
            r == self.spec_object_id(),
    {
        self.object_id
    }

    /// Returns the absolute byte offset of the chunk body.
    #[verifier::when_used_as_spec(spec_offset)]
    pub fn offset(&self) -> (r: u64)
        ensures
            r == self.spec_offset(),
    {
        self.offset
    }

    /// Returns the chunk body's derived size in bytes.
    #[verifier::when_used_as_spec(spec_size)]
    pub fn size(&self) -> (r: usize)
        ensures
            r == self.spec_size(),
    {
        self.size
    }
}

/// In a valid table the chunk bodies are contiguous: each body ends where
/// the next begins, the last ends at the end of the document, and the first
/// begins after the table.
pub proof fn lemma_chunks_tile(s: Seq<u8>, count: int, chunks: Seq<Chunk>)
    requires
        table_valid(s, count),
        chunks.len() == count,
        forall|i: int| 0 <= i < count ==> #[trigger] chunks[i].parsed_from(s, count, i),
    ensures
        count > 0 ==> chunks[0].offset() >= table_end(count),
        forall|i: int|
            0 <= i < count - 1 ==> #[trigger] chunks[i].offset() + chunks[i].size() == chunks[i
                + 1].offset(),
        count > 0 ==> chunks[count - 1].offset() + chunks[count - 1].size() == s.len(),
{
    if count > 0 {
        assert(chunks[0].parsed_from(s, count, 0));
        assert(entry_ok(s, count, 0));
        assert(chunks[count - 1].parsed_from(s, count, count - 1));
    }
    assert forall|i: int| 0 <= i < count - 1 implies #[trigger] chunks[i].offset()
        + chunks[i].size() == chunks[i + 1].offset() by {
        assert(chunks[i].parsed_from(s, count, i));
        assert(chunks[i + 1].parsed_from(s, count, i + 1));
    }
}


} // verus!
