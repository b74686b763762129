//! Top-level metadata of a SAI2 document: its header and chunk table.

use vstd::prelude::*;

use crate::bytes::le_u32;
use crate::chunk::{chunk_end, chunk_table_outcome, entry_ok, entry_offset, entry_pos, table_valid, Chunk};
use crate::error::ParseError;
use crate::header::{header_ok, header_outcome, Sai2Header};

verus! {

/// `s` has a valid header and a valid chunk table.
pub open spec fn document_valid(s: Seq<u8>) -> bool {
    header_ok(s) && table_valid(s, le_u32(s, 32))
}

/// The four type bytes of chunk-table entry `i`.
pub open spec fn kind_at(s: Seq<u8>, i: int) -> Seq<u8> {
    s.subrange(entry_pos(i), entry_pos(i) + 4)
}

/// The index of the first of entries `i..count` whose type is `tag`.
pub open spec fn find_first_kind(s: Seq<u8>, count: int, tag: Seq<u8>, i: int) -> Option<int>
    decreases count - i,
{
    if i >= count || i < 0 {
        None
    } else if kind_at(s, i) == tag {
        Some(i)
    } else {
        find_first_kind(s, count, tag, i + 1)
    }
}

/// The body bytes of chunk-table entry `i`.
pub open spec fn chunk_body_spec(s: Seq<u8>, count: int, i: int) -> Seq<u8> {
    s.subrange(entry_offset(s, i), chunk_end(s, count, i))
}

/// The outcome of parsing the header and chunk table of `s`.
pub open spec fn document_outcome(s: Seq<u8>, r: Result<Sai2Document, ParseError>) -> bool {
    match r {
        Ok(d) => {
            &&& header_ok(s)
            &&& d.header().parsed_from(s)
            &&& chunk_table_outcome(s, le_u32(s, 32), Ok(d.chunk_list()))
        },
        Err(e) => if !header_ok(s) {
            header_outcome(s, Err(e))
        } else {
            chunk_table_outcome(s, le_u32(s, 32), Err(e))
        },
    }
}

/// Parsed top-level metadata for a SAI2 document.
#[derive(Debug, Clone, PartialEq, Eq)]
pub struct Sai2Document {
    header: Sai2Header,
    chunks: Vec<Chunk>,
}

impl Sai2Document {
    pub closed spec fn spec_header(&self) -> &Sai2Header {
        &self.header
    }

    /// The chunk metadata in table order.
    pub closed spec fn chunk_list(&self) -> Seq<Chunk> {
        self.chunks@
    }

    /// Parses the fixed header and complete chunk table from `input`.
    ///
    /// Chunk bodies are not decoded. Unknown chunk types and nonzero reserved
    /// table fields are retained as metadata.
    pub fn parse(input: &[u8]) -> (r: Result<Self, ParseError>)
        ensures
            document_outcome(input@, r),
    {
        let header = match Sai2Header::parse(input) {
            Ok(h) => h,
            Err(e) => {
                return Err(e);
            },
        };
        let chunks = match Chunk::parse_all(input, &header) {
            Ok(c) => c,
            Err(e) => {
                return Err(e);
            },
        };
        Ok(Sai2Document { header, chunks })
    }

    /// Returns the fixed document header.
    #[verifier::when_used_as_spec(spec_header)]
    pub fn header(&self) -> (r: &Sai2Header)
        ensures
            *r == self.spec_header(),
    {
        &self.header
    }

    /// Returns chunk metadata in table order.
    pub fn chunks(&self) -> (r: &[Chunk])
        ensures
            r@ == self.chunk_list(),
    {
        self.chunks.as_slice()
    }
}

/// If entry `k` is the first of entries `i..` with type `tag`, the search
/// from `i` finds it.
pub proof fn lemma_find_first_kind_some(s: Seq<u8>, count: int, tag: Seq<u8>, i: int, k: int)
    requires
        0 <= i <= k < count,
        kind_at(s, k) == tag,
        forall|j: int| i <= j < k ==> kind_at(s, j) != tag,
    ensures
        find_first_kind(s, count, tag, i) == Some(k),
    decreases k - i,
{
    if i < k {
        lemma_find_first_kind_some(s, count, tag, i + 1, k);
    }
}

/// If none of entries `i..count` has type `tag`, the search from `i` finds
/// nothing.
pub proof fn lemma_find_first_kind_none(s: Seq<u8>, count: int, tag: Seq<u8>, i: int)
    requires
        0 <= i <= count,
        forall|j: int| i <= j < count ==> kind_at(s, j) != tag,
    ensures
        find_first_kind(s, count, tag, i) is None,
    decreases count - i,
{
    if i < count {
        lemma_find_first_kind_none(s, count, tag, i + 1);
    }
}

/// The index of the first chunk whose type is `tag`.
pub fn first_chunk_of_kind(chunks: &[Chunk], tag: [u8; 4]) -> (r: Option<usize>)
    ensures
        r matches Some(k) ==> k < chunks@.len() && chunks@[k as int].kind().as_bytes()@ == tag@,
        forall|j: int|
            0 <= j < (match r {
                Some(k) => k as int,
                None => chunks@.len() as int,
            }) ==> chunks@[j].kind().as_bytes()@ != tag@,
{
    let mut k: usize = 0;
    while k < chunks.len()
        invariant
            k <= chunks@.len(),
            forall|j: int| 0 <= j < k ==> chunks@[j].kind().as_bytes()@ != tag@,
        decreases chunks@.len() - k,
    {
        if chunks[k].kind().is(tag) {
            return Some(k);
        }
        k = k + 1;
    }
    None
}

/// A successfully parsed document's chunk list describes every table entry.
pub proof fn lemma_document_chunks(s: Seq<u8>, d: Sai2Document)
    requires
        document_outcome(s, Ok(d)),
    ensures
        document_valid(s),
        chunks_describe(s, d.chunk_list()),
        d.chunk_list().len() == le_u32(s, 32),
        forall|i: int|
            0 <= i < le_u32(s, 32) ==> #[trigger] d.chunk_list()[i].parsed_from(s, le_u32(s, 32), i),
{
}

/// `chunks` is the complete, valid chunk table of `s`.
pub open spec fn chunks_describe(s: Seq<u8>, chunks: Seq<Chunk>) -> bool {
    &&& table_valid(s, le_u32(s, 32))
    &&& chunks.len() == le_u32(s, 32)
    &&& forall|i: int| 0 <= i < le_u32(s, 32) ==> #[trigger] chunks[i].parsed_from(s, le_u32(s, 32), i)
}

/// The body of a chunk of a valid table lies within the document.
pub proof fn lemma_chunk_within(s: Seq<u8>, chunks: Seq<Chunk>, i: int)
    requires
        chunks_describe(s, chunks),
        0 <= i < chunks.len(),
    ensures
        chunks[i].offset() + chunks[i].size() <= s.len(),
        chunks[i].offset() == entry_offset(s, i),
        chunks[i].offset() + chunks[i].size() == chunk_end(s, le_u32(s, 32), i),
{
    let count = le_u32(s, 32);
    assert(chunks[i].parsed_from(s, count, i));
    assert(entry_ok(s, count, i));
    if i + 1 < count {
        assert(entry_ok(s, count, i + 1));
    }
}

/// The object ID stored in chunk-table entry `i`.
pub open spec fn object_id_at(s: Seq<u8>, i: int) -> int {
    le_u32(s, entry_pos(i) + 4)
}

/// The indices of entries `0..n` whose object ID is `id`, in table order.
pub open spec fn ids_upto(s: Seq<u8>, id: int, n: int) -> Seq<int>
    decreases n,
{
    if n <= 0 {
        Seq::empty()
    } else {
        ids_upto(s, id, n - 1) + if object_id_at(s, n - 1) == id {
            seq![n - 1]
        } else {
            Seq::empty()
        }
    }
}

/// The index of the first of entries `i..count` with type `tag` and object
/// ID `id`.
pub open spec fn find_kind_id(s: Seq<u8>, count: int, tag: Seq<u8>, id: int, i: int) -> Option<int>
    decreases count - i,
{
    if i >= count || i < 0 {
        None
    } else if kind_at(s, i) == tag && object_id_at(s, i) == id {
        Some(i)
    } else {
        find_kind_id(s, count, tag, id, i + 1)
    }
}

pub proof fn lemma_find_kind_id_some(s: Seq<u8>, count: int, tag: Seq<u8>, id: int, i: int, k: int)
    requires
        0 <= i <= k < count,
        kind_at(s, k) == tag && object_id_at(s, k) == id,
        forall|j: int| i <= j < k ==> !(kind_at(s, j) == tag && object_id_at(s, j) == id),
    ensures
        find_kind_id(s, count, tag, id, i) == Some(k),
    decreases k - i,
{
    if i < k {
        lemma_find_kind_id_some(s, count, tag, id, i + 1, k);
    }
}

pub proof fn lemma_find_kind_id_none(s: Seq<u8>, count: int, tag: Seq<u8>, id: int, i: int)
    requires
        0 <= i <= count,
        forall|j: int| i <= j < count ==> !(kind_at(s, j) == tag && object_id_at(s, j) == id),
    ensures
        find_kind_id(s, count, tag, id, i) is None,
    decreases count - i,
{
    if i < count {
        lemma_find_kind_id_none(s, count, tag, id, i + 1);
    }
}

/// The index of the first chunk whose type is `tag` and whose object ID is
/// `id`.
pub fn first_chunk_with(chunks: &[Chunk], tag: [u8; 4], id: u32) -> (r: Option<usize>)
    ensures
        r matches Some(k) ==> k < chunks@.len() && chunks@[k as int].kind().as_bytes()@ == tag@
            && chunks@[k as int].object_id() == id,
        forall|j: int|
            0 <= j < (match r {
                Some(k) => k as int,
                None => chunks@.len() as int,
            }) ==> !(chunks@[j].kind().as_bytes()@ == tag@ && chunks@[j].object_id() == id),
{
    let mut k: usize = 0;
    while k < chunks.len()
        invariant
            k <= chunks@.len(),
            forall|j: int|
                0 <= j < k ==> !(chunks@[j].kind().as_bytes()@ == tag@ && chunks@[j].object_id() == id),
        decreases chunks@.len() - k,
    {
        if chunks[k].kind().is(tag) && chunks[k].object_id() == id {
            return Some(k);
        }
        k = k + 1;
    }
    None
}

} // verus!
