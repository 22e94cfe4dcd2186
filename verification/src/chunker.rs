//! Content-defined chunking.
//!
//! A chunker splits a byte string at cut points that depend on the bytes
//! around them, so that an insertion moves only the cuts next to it.  The cut
//! points are found by FastCDC; this module turns them into chunks that own
//! their bytes and shows that the chunks, in order, make up the input again.

use crate::error::Error;
use crate::types::{ChunkID, blake3_digest};
use vstd::prelude::*;
use vstd::slice::slice_subrange;

verus! {

/// The least minimum chunk size that the cut-point search accepts.
pub const MINIMUM_MIN: u32 = 64;

/// The greatest minimum chunk size that the cut-point search accepts.
pub const MINIMUM_MAX: u32 = 1_048_576;

/// The least average chunk size that the cut-point search accepts.
pub const AVERAGE_MIN: u32 = 256;

/// The greatest average chunk size that the cut-point search accepts.
pub const AVERAGE_MAX: u32 = 4_194_304;

/// The least maximum chunk size that the cut-point search accepts.
pub const MAXIMUM_MIN: u32 = 1024;

/// The greatest maximum chunk size that the cut-point search accepts.
pub const MAXIMUM_MAX: u32 = 16_777_216;

/// The average chunk size of the default chunker, 4 MiB.
pub const DEFAULT_AVERAGE: u32 = 4_194_304;

/// The chunks that FastCDC (the 2020 version, normalization level 1, the
/// crate's own gear table) cuts `data` into, each as its offset and length.
pub uninterp spec fn fastcdc_cuts(data: Seq<u8>, min_size: u32, avg_size: u32, max_size: u32) -> Seq<
    (usize, usize),
>;

/// Whether the sizes are ones that the cut-point search accepts, in order.
pub open spec fn sizes_supported(min_size: u32, avg_size: u32, max_size: u32) -> bool {
    &&& MINIMUM_MIN <= min_size <= MINIMUM_MAX
    &&& AVERAGE_MIN <= avg_size <= AVERAGE_MAX
    &&& MAXIMUM_MIN <= max_size <= MAXIMUM_MAX
    &&& min_size <= avg_size <= max_size
}

/// Whether `cuts` tile a string of `len` bytes: no cut is empty, the first
/// starts at zero, each starts where the one before it ends, and the last ends
/// at `len`.
pub open spec fn cuts_tile(cuts: Seq<(usize, usize)>, len: nat) -> bool {
    &&& (cuts.len() == 0 <==> len == 0)
    &&& forall|i: int| 0 <= i < cuts.len() ==> (#[trigger] cuts[i]).1 > 0
    &&& cuts.len() > 0 ==> cuts[0].0 == 0
    &&& forall|i: int|
        0 <= i < cuts.len() - 1 ==> (#[trigger] cuts[i]).0 + cuts[i].1 == cuts[i + 1].0
    &&& cuts.len() > 0 ==> cuts.last().0 + cuts.last().1 == len
}

/// The least length of a chunk that is not the last.  The search looks at
/// two bytes at a time and starts at half the minimum size, so with an odd
/// minimum a cut may come one byte early.
pub open spec fn least_cut(min_size: u32) -> int {
    2 * (min_size as int / 2)
}

/// Whether the lengths of `cuts` keep the bounds: none is above the maximum,
/// and none but the last is below `least_cut` of the minimum.
pub open spec fn cuts_bounded(cuts: Seq<(usize, usize)>, min_size: u32, max_size: u32) -> bool {
    &&& forall|i: int| 0 <= i < cuts.len() ==> (#[trigger] cuts[i]).1 <= max_size
    &&& forall|i: int| 0 <= i < cuts.len() - 1 ==> (#[trigger] cuts[i]).1 >= least_cut(min_size)
}

/// Runs the iterator `fastcdc::v2020::FastCDC::new(data, min, avg, max)` to
/// its end and keeps each chunk's offset and length.  The iterator yields
/// until no byte is left; each chunk starts where the last one ended; a cut is
/// never placed beyond the maximum size, and before twice the half of the
/// minimum size only where the input ends there.  The sizes must be in the
/// ranges outside of which the constructor panics, and in order.
#[verifier::external_body]
fn fastcdc_split(data: &[u8], min_size: u32, avg_size: u32, max_size: u32) -> (cuts: Vec<(usize, usize)>)
    requires
        sizes_supported(min_size, avg_size, max_size),
    ensures
        cuts@ == fastcdc_cuts(data@, min_size, avg_size, max_size),
        cuts_tile(cuts@, data@.len()),
        cuts_bounded(cuts@, min_size, max_size),
{
    fastcdc::v2020::FastCDC::new(data, min_size, avg_size, max_size).map(|c| (c.offset, c.length)).collect()
}

/// A run of bytes cut from a source, with its place in the source.
#[derive(Debug)]
pub struct Chunk {
    pub offset: usize,
    pub length: usize,
    pub data: Vec<u8>,
}

/// What a `Chunk` holds, as plain values.
pub ghost struct ChunkView {
    pub offset: usize,
    pub length: usize,
    pub data: Seq<u8>,
}

impl View for Chunk {
    type V = ChunkView;

    open spec fn view(&self) -> ChunkView {
        ChunkView { offset: self.offset, length: self.length, data: self.data@ }
    }
}

impl Clone for Chunk {
    fn clone(&self) -> (copy: Self)
        ensures
            copy@ == self@,
    {
        Chunk { offset: self.offset, length: self.length, data: self.data.clone() }
    }
}

impl Chunk {
    /// The identifier of the chunk: the digest of its bytes.
    pub fn id(&self) -> (id: ChunkID)
        ensures
            id@ == blake3_digest(self.data@),
    {
        ChunkID::from_data(self.data.as_slice())
    }

    pub fn data(&self) -> (bytes: &[u8])
        ensures
            bytes@ == self.data@,
    {
        self.data.as_slice()
    }
}

/// The chunks that the cuts make of `data`.
pub open spec fn chunks_at(data: Seq<u8>, cuts: Seq<(usize, usize)>) -> Seq<ChunkView> {
    Seq::new(
        cuts.len(),
        |i: int|
            ChunkView {
                offset: cuts[i].0,
                length: cuts[i].1,
                data: data.subrange(cuts[i].0 as int, cuts[i].0 + cuts[i].1),
            },
    )
}

/// The chunks of `data` under the given sizes: a function of the bytes and
/// the sizes alone.
pub open spec fn chunks_of(data: Seq<u8>, min_size: u32, avg_size: u32, max_size: u32) -> Seq<ChunkView> {
    chunks_at(data, fastcdc_cuts(data, min_size, avg_size, max_size))
}

/// The bytes of the chunks, one after the other.
pub open spec fn joined(chunks: Seq<ChunkView>) -> Seq<u8>
    decreases chunks.len(),
{
    if chunks.len() == 0 {
        Seq::empty()
    } else {
        joined(chunks.drop_last()) + chunks.last().data
    }
}

/// The views of a list of chunks.
pub open spec fn chunk_views(chunks: Seq<Chunk>) -> Seq<ChunkView> {
    Seq::new(chunks.len(), |i: int| chunks[i]@)
}

/// Whether the chunks keep the size bounds: none is longer than `max_size`,
/// and none but the last is shorter than `least_cut(min_size)`.
pub open spec fn chunks_bounded(chunks: Seq<ChunkView>, min_size: u32, max_size: u32) -> bool {
    &&& forall|i: int| 0 <= i < chunks.len() ==> (#[trigger] chunks[i]).data.len() <= max_size
    &&& forall|i: int|
        0 <= i < chunks.len() - 1 ==> (#[trigger] chunks[i]).data.len() >= least_cut(min_size)
}

/// Cuts that tile a string give chunks that make it up again.
proof fn lemma_tiles_join(data: Seq<u8>, cuts: Seq<(usize, usize)>, upto: int)
    requires
        cuts_tile(cuts, data.len()),
        0 <= upto <= cuts.len(),
    ensures
        joined(chunks_at(data, cuts).subrange(0, upto)) == data.subrange(
            0,
            if upto == 0 {
                0
            } else {
                cuts[upto - 1].0 + cuts[upto - 1].1
            },
        ),
        upto > 0 ==> cuts[upto - 1].0 + cuts[upto - 1].1 <= data.len(),
    decreases upto,
{
    let chunks = chunks_at(data, cuts);
    if upto == 0 {
        assert(joined(chunks.subrange(0, 0)) =~= Seq::<u8>::empty());
        assert(data.subrange(0, 0) =~= Seq::<u8>::empty());
    } else {
        lemma_tiles_join(data, cuts, upto - 1);
        lemma_tile_ends(cuts, data.len(), upto - 1);
        let head = chunks.subrange(0, upto);
        assert(head.drop_last() =~= chunks.subrange(0, upto - 1));
        assert(head.last() == chunks[upto - 1]);
        let start = cuts[upto - 1].0 as int;
        let end = cuts[upto - 1].0 + cuts[upto - 1].1;
        if upto - 1 > 0 {
            assert(cuts[upto - 2].0 + cuts[upto - 2].1 == cuts[upto - 1].0);
        }
        assert(data.subrange(0, start) + data.subrange(start, end) =~= data.subrange(0, end));
    }
}

/// In a tiling, every cut lies within the string.
proof fn lemma_tile_ends(cuts: Seq<(usize, usize)>, len: nat, index: int)
    requires
        cuts_tile(cuts, len),
        0 <= index < cuts.len(),
    ensures
        cuts[index].0 + cuts[index].1 <= len,
    decreases cuts.len() - index,
{
    if index < cuts.len() - 1 {
        lemma_tile_ends(cuts, len, index + 1);
        assert(cuts[index].0 + cuts[index].1 == cuts[index + 1].0);
    } else {
        assert(cuts[index] == cuts.last());
    }
}

/// In a tiling that keeps the bounds, each cut starts no earlier than the
/// cuts before it are long at least.
proof fn lemma_cut_starts(cuts: Seq<(usize, usize)>, len: nat, min_size: u32, max_size: u32, index: int)
    requires
        cuts_tile(cuts, len),
        cuts_bounded(cuts, min_size, max_size),
        0 <= index < cuts.len(),
    ensures
        index * least_cut(min_size) <= cuts[index].0,
    decreases index,
{
    if index > 0 {
        lemma_cut_starts(cuts, len, min_size, max_size, index - 1);
        assert(cuts[index - 1].0 + cuts[index - 1].1 == cuts[index].0);
        assert(cuts[index - 1].1 >= least_cut(min_size));
        assert((index - 1) * least_cut(min_size) + least_cut(min_size) == index * least_cut(min_size))
            by (nonlinear_arith);
    } else {
        assert(0 * least_cut(min_size) == 0) by (nonlinear_arith);
    }
}

/// A content-defined chunker with its three sizes.
pub struct Chunker {
    min_size: u32,
    avg_size: u32,
    max_size: u32,
}

impl Chunker {
    pub closed spec fn spec_min_size(&self) -> u32 {
        self.min_size
    }

    pub closed spec fn spec_avg_size(&self) -> u32 {
        self.avg_size
    }

    pub closed spec fn spec_max_size(&self) -> u32 {
        self.max_size
    }

    /// Whether the cut-point search accepts the sizes of this chunker.
    pub open spec fn supported(&self) -> bool {
        sizes_supported(self.spec_min_size(), self.spec_avg_size(), self.spec_max_size())
    }

    /// A chunker for the average size given, with a quarter of it as the
    /// minimum and four times it as the maximum.
    pub fn new(avg_size: u32) -> (chunker: Self)
        requires
            avg_size * 4 <= u32::MAX,
        ensures
            chunker.spec_avg_size() == avg_size,
            chunker.spec_min_size() == avg_size / 4,
            chunker.spec_max_size() == avg_size * 4,
            chunker.supported() <==> AVERAGE_MIN <= avg_size <= AVERAGE_MAX,
    {
        Self { min_size: avg_size / 4, avg_size, max_size: avg_size * 4 }
    }

    /// The chunker for an average size of 4 MiB.
    pub fn default() -> (chunker: Self)
        ensures
            chunker.spec_avg_size() == DEFAULT_AVERAGE,
            chunker.spec_min_size() == DEFAULT_AVERAGE / 4,
            chunker.spec_max_size() == DEFAULT_AVERAGE * 4,
            chunker.supported(),
    {
        Self::new(DEFAULT_AVERAGE)
    }

    /// Tells whether `chunk_data` may be called.
    pub fn is_supported(&self) -> (r: bool)
        ensures
            r == self.supported(),
    {
        MINIMUM_MIN <= self.min_size && self.min_size <= MINIMUM_MAX && AVERAGE_MIN <= self.avg_size
            && self.avg_size <= AVERAGE_MAX && MAXIMUM_MIN <= self.max_size && self.max_size
            <= MAXIMUM_MAX && self.min_size <= self.avg_size && self.avg_size <= self.max_size
    }

    /// Splits `data` into chunks.
    ///
    /// The result depends on the bytes and the sizes alone.  The first chunk
    /// starts at offset zero, each chunk starts where the one before it ends,
    /// and the last ends where `data` ends, so that the chunks, in order, make
    /// up `data` again.  None is empty or longer than the maximum size, and
    /// none but the last is shorter than the minimum size rounded down to an
    /// even number, which bounds their number.
    pub fn chunk_data(&self, data: &[u8]) -> (chunks: Vec<Chunk>)
        requires
            self.supported(),
        ensures
            chunk_views(chunks@) == chunks_of(
                data@,
                self.spec_min_size(),
                self.spec_avg_size(),
                self.spec_max_size(),
            ),
            joined(chunk_views(chunks@)) == data@,
            chunks_bounded(chunk_views(chunks@), self.spec_min_size(), self.spec_max_size()),
            forall|i: int|
                0 <= i < chunks.len() ==> {
                    &&& (#[trigger] chunks[i]).data.len() == chunks[i].length
                    &&& chunks[i].length > 0
                    &&& chunks[i].offset + chunks[i].length <= data.len()
                    &&& chunks[i].data@ == data@.subrange(
                        chunks[i].offset as int,
                        chunks[i].offset + chunks[i].length,
                    )
                },
            chunks.len() == 0 <==> data.len() == 0,
            chunks.len() > 0 ==> chunks[0].offset == 0,
            forall|i: int|
                0 <= i < chunks.len() - 1 ==> (#[trigger] chunks[i]).offset + chunks[i].length
                    == chunks[i + 1].offset,
            chunks.len() > 0 ==> chunks[chunks.len() - 1].offset + chunks[chunks.len() - 1].length
                == data.len(),
            chunks.len() > 0 ==> (chunks.len() - 1) * least_cut(self.spec_min_size()) <= data.len(),
    {
        let cuts = fastcdc_split(data, self.min_size, self.avg_size, self.max_size);
        let ghost expected = chunks_at(data@, cuts@);
        let mut chunks: Vec<Chunk> = Vec::new();
        let mut i: usize = 0;
        while i < cuts.len()
            invariant
                i <= cuts.len(),
                chunks.len() == i,
                cuts_tile(cuts@, data@.len()),
                expected == chunks_at(data@, cuts@),
                forall|j: int| 0 <= j < i ==> (#[trigger] chunks[j])@ == expected[j],
            decreases cuts.len() - i,
        {
            let cut = cuts[i];
            let offset = cut.0;
            let length = cut.1;
            proof {
                lemma_tile_ends(cuts@, data@.len(), i as int);
                assert(cut == cuts@[i as int]);
                assert(data@.len() == data.len());
            }
            let piece = slice_subrange(data, offset, offset + length);
            let mut bytes: Vec<u8> = Vec::new();
            bytes.extend_from_slice(piece);
            assert(bytes@ =~= data@.subrange(offset as int, offset + length));
            chunks.push(Chunk { offset, length, data: bytes });
            i += 1;
        }
        proof {
            if cuts@.len() > 0 {
                lemma_cut_starts(
                    cuts@,
                    data@.len(),
                    self.min_size,
                    self.max_size,
                    cuts@.len() - 1,
                );
                lemma_tile_ends(cuts@, data@.len(), cuts@.len() - 1);
            }
            assert(chunk_views(chunks@) =~= expected);
            assert forall|i: int| 0 <= i < chunks.len() - 1 implies (#[trigger] chunks[i]).offset
                + chunks[i].length == chunks[i + 1].offset by {
                assert(chunks[i]@ == expected[i]);
                assert(chunks[i + 1]@ == expected[i + 1]);
                assert(cuts@[i].0 + cuts@[i].1 == cuts@[i + 1].0);
            }
            if chunks.len() > 0 {
                assert(chunks[0]@ == expected[0]);
                assert(chunks[chunks.len() - 1]@ == expected[chunks.len() - 1]);
                assert(cuts@[cuts@.len() - 1] == cuts@.last());
            }
            lemma_tiles_join(data@, cuts@, cuts@.len() as int);
            assert(expected.subrange(0, cuts@.len() as int) =~= expected);
            if cuts@.len() > 0 {
                assert(cuts@[cuts@.len() - 1] == cuts@.last());
                assert(data@.subrange(0, data@.len() as int) =~= data@);
            } else {
                assert(data@ =~= Seq::<u8>::empty());
            }
            assert forall|i: int| 0 <= i < chunks.len() implies {
                &&& (#[trigger] chunks[i]).data.len() == chunks[i].length
                &&& chunks[i].length > 0
                &&& chunks[i].offset + chunks[i].length <= data.len()
                &&& chunks[i].data@ == data@.subrange(
                    chunks[i].offset as int,
                    chunks[i].offset + chunks[i].length,
                )
            } by {
                lemma_tile_ends(cuts@, data@.len(), i);
                assert(chunks[i]@ == expected[i]);
            }
            assert forall|i: int| 0 <= i < chunks.len() implies (#[trigger] chunk_views(
                chunks@,
            )[i]).data.len() <= self.max_size by {
                lemma_tile_ends(cuts@, data@.len(), i);
                assert(cuts@[i].1 <= self.max_size);
            }
            assert forall|i: int| 0 <= i < chunks.len() - 1 implies (#[trigger] chunk_views(
                chunks@,
            )[i]).data.len() >= least_cut(self.min_size) by {
                lemma_tile_ends(cuts@, data@.len(), i);
                assert(cuts@[i].1 >= least_cut(self.min_size));
            }
        }
        chunks
    }

    /// Splits what was read from a source: the chunks of the bytes, or an I/O
    /// error with the message of the failed read.
    pub fn chunk_reader(&self, read: core::result::Result<Vec<u8>, String>) -> (r: core::result::Result<
        Vec<Chunk>,
        Error,
    >)
        requires
            self.supported(),
        ensures
            match read {
                Ok(buffer) => r matches Ok(chunks) && chunk_views(chunks@) == chunks_of(
                    buffer@,
                    self.spec_min_size(),
                    self.spec_avg_size(),
                    self.spec_max_size(),
                ) && joined(chunk_views(chunks@)) == buffer@,
                Err(message) => r matches Err(Error::Io(m)) && m == message,
            },
    {
        match read {
            Ok(buffer) => Ok(self.chunk_data(buffer.as_slice())),
            Err(message) => Err(Error::Io(message)),
        }
    }
}

/// With an even minimum size, every chunk but the last has at least the
/// minimum size and none has more than the maximum size.
pub proof fn lemma_even_minimum_is_kept(chunks: Seq<ChunkView>, min_size: u32, max_size: u32)
    requires
        chunks_bounded(chunks, min_size, max_size),
        min_size % 2 == 0,
    ensures
        forall|i: int| 0 <= i < chunks.len() ==> (#[trigger] chunks[i]).data.len() <= max_size,
        forall|i: int| 0 <= i < chunks.len() - 1 ==> (#[trigger] chunks[i]).data.len() >= min_size,
{
}

} // verus!
