//! Retrieval: from the bytes that the store holds for a chunk to the bytes
//! of the caller's buffer. A chunk that the store does not hold reads as its
//! fill value.

use vstd::prelude::*;
use crate::buffer::{extract, holds, extracted, lemma_extract_repeated, lemma_extract_whole,
    lemma_fits_product, repeat, repeated, update, updated, zero_origin};
use crate::chunk::ChunkRepresentation;
use crate::error::PipelineError;
use crate::layout::{ints, product};
use crate::pipeline::{ChunksItem, CodecPipelineImpl};
use crate::region::fits;

verus! {

/// Stored bytes, where there are any, as a sequence.
pub open spec fn stored_bytes(stored: Option<&Vec<u8>>) -> Option<Seq<u8>> {
    match stored {
        Some(bytes) => Some(bytes@),
        None => None,
    }
}

/// What the store held under a key, as a sequence.
pub open spec fn held(stored: Option<Vec<u8>>) -> Option<Seq<u8>> {
    match stored {
        Some(bytes) => Some(bytes@),
        None => None,
    }
}

/// What the store held under a key, borrowed.
pub fn borrowed(stored: &Option<Vec<u8>>) -> (bytes: Option<&Vec<u8>>)
    ensures
        stored_bytes(bytes) == held(*stored),
{
    match stored {
        Some(bytes) => Some(bytes),
        None => None,
    }
}

/// Whether an executable result holds the bytes that the model gives, or
/// fails as the model does.
pub open spec fn same_outcome(
    result: Result<Vec<u8>, PipelineError>,
    model: Result<Seq<u8>, PipelineError>,
) -> bool {
    match result {
        Ok(bytes) => model == Ok::<Seq<u8>, PipelineError>(bytes@),
        Err(e) => model == Err::<Seq<u8>, PipelineError>(e),
    }
}

/// Why a buffer of `size` bytes and the given shape cannot take part in the
/// work on an item; `None` where it can. The buffer is looked at first, then
/// the two regions.
pub open spec fn mismatch(item: ChunksItem, size: nat, shape: Seq<u64>) -> Option<PipelineError> {
    if size != product(ints(shape)) * item.representation.width() {
        Some(PipelineError::NonContiguousBuffer)
    } else if !fits(item.subset.origin(), item.subset.extent(), ints(shape)) {
        Some(PipelineError::OutOfBounds)
    } else if !fits(
        item.chunk_subset.origin(),
        item.chunk_subset.extent(),
        ints(item.representation.dims()),
    ) {
        Some(PipelineError::OutOfBounds)
    } else {
        None
    }
}

impl CodecPipelineImpl {
    /// The bytes of a chunk, given what the store holds under its key: the
    /// decoded bytes, or the fill value for every element where the store
    /// holds nothing.
    pub open spec fn chunk_bytes(&self, chunk: ChunkRepresentation, stored: Option<Seq<u8>>) -> Result<
        Seq<u8>,
        PipelineError,
    > {
        match stored {
            None => Ok(repeated(chunk.fill(), chunk.count())),
            Some(encoded) => match self.decoded(chunk, encoded) {
                Some(bytes) => if bytes.len() == chunk.count() * chunk.width() {
                    Ok(bytes)
                } else {
                    Err(PipelineError::DecodeFailure)
                },
                None => Err(PipelineError::DecodeFailure),
            },
        }
    }

    /// The bytes of the region that an item addresses in its chunk.
    pub open spec fn region_bytes(&self, item: ChunksItem, stored: Option<Seq<u8>>) -> Result<
        Seq<u8>,
        PipelineError,
    > {
        if !fits(
            item.chunk_subset.origin(),
            item.chunk_subset.extent(),
            ints(item.representation.dims()),
        ) {
            Err(PipelineError::OutOfBounds)
        } else {
            match self.chunk_bytes(item.representation, stored) {
                Err(e) => Err(e),
                Ok(chunk) => Ok(
                    extracted(
                        chunk,
                        ints(item.representation.dims()),
                        item.chunk_subset.origin(),
                        item.chunk_subset.extent(),
                        item.representation.width(),
                    ),
                ),
            }
        }
    }

    /// The caller's buffer after an item has been retrieved into it.
    pub open spec fn retrieved(
        &self,
        item: ChunksItem,
        stored: Option<Seq<u8>>,
        output: Seq<u8>,
        shape: Seq<u64>,
    ) -> Result<Seq<u8>, PipelineError> {
        match mismatch(item, output.len(), shape) {
            Some(e) => Err(e),
            None => if item.subset.count() != item.chunk_subset.count() {
                Err(PipelineError::UnsupportedSelection)
            } else {
                match self.region_bytes(item, stored) {
                    Err(e) => Err(e),
                    Ok(region) => Ok(
                        updated(
                            output,
                            ints(shape),
                            item.subset.origin(),
                            item.subset.extent(),
                            item.representation.width(),
                            region,
                        ),
                    ),
                }
            },
        }
    }

    /// The caller's buffer after the first `n` items of a batch have been
    /// retrieved into it one after the other, each with what the store held
    /// under its key; and the failure that ended the work, if one did. An
    /// item that fails leaves the buffer as the items before it left it.
    pub open spec fn retrieved_all(
        &self,
        work: Seq<(ChunksItem, Option<Vec<u8>>)>,
        output: Seq<u8>,
        shape: Seq<u64>,
        n: int,
    ) -> (Seq<u8>, Option<PipelineError>)
        decreases n,
    {
        if n <= 0 {
            (output, None)
        } else {
            let before = self.retrieved_all(work, output, shape, n - 1);
            if before.1 is Some {
                before
            } else {
                match self.retrieved(work[n - 1].0, held(work[n - 1].1), before.0, shape) {
                    Ok(bytes) => (bytes, None),
                    Err(e) => (before.0, Some(e)),
                }
            }
        }
    }

    /// Once an item has failed, nothing changes however many more are looked
    /// at.
    pub proof fn lemma_retrieved_all_fails(
        &self,
        work: Seq<(ChunksItem, Option<Vec<u8>>)>,
        output: Seq<u8>,
        shape: Seq<u64>,
        m: int,
        n: int,
    )
        requires
            0 <= m <= n,
            self.retrieved_all(work, output, shape, m).1 is Some,
        ensures
            self.retrieved_all(work, output, shape, n) == self.retrieved_all(work, output, shape, m),
        decreases n - m,
    {
        if m < n {
            self.lemma_retrieved_all_fails(work, output, shape, m, n - 1);
        }
    }

    /// Retrieves a batch of items into the caller's buffer `output` of the
    /// given shape, one after the other, each from what the store held under
    /// its key. The first item that fails ends the work.
    pub fn retrieve_chunks(
        &self,
        work: &[(ChunksItem, Option<Vec<u8>>)],
        output: &mut Vec<u8>,
        output_shape: &[u64],
    ) -> (result: Result<(), PipelineError>)
        ensures
            self.retrieved_all(work@, old(output)@, output_shape@, work@.len() as int) == (
                final(output)@,
                match result {
                    Ok(()) => None::<PipelineError>,
                    Err(e) => Some(e),
                },
            ),
    {
        let ghost start = output@;
        let mut i: usize = 0;
        while i < work.len()
            invariant
                i <= work.len(),
                start == old(output)@,
                self.retrieved_all(work@, start, output_shape@, i as int) == (
                    output@,
                    None::<PipelineError>,
                ),
            decreases work.len() - i,
        {
            let stored = borrowed(&work[i].1);
            match self.retrieve_chunk(&work[i].0, stored, output, output_shape) {
                Ok(()) => {},
                Err(e) => {
                    proof {
                        self.lemma_retrieved_all_fails(
                            work@,
                            start,
                            output_shape@,
                            i as int + 1,
                            work@.len() as int,
                        );
                    }
                    return Err(e);
                },
            }
            i += 1;
        }
        Ok(())
    }

    /// The bytes of a chunk, from what the store holds under its key.
    pub fn retrieve_chunk_bytes(
        &self,
        chunk_representation: &ChunkRepresentation,
        value_encoded: Option<&Vec<u8>>,
    ) -> (result: Result<Vec<u8>, PipelineError>)
        ensures
            same_outcome(result, self.chunk_bytes(*chunk_representation, stored_bytes(value_encoded))),
    {
        match value_encoded {
            Some(encoded) => checked_chunk(
                chunk_representation,
                self.decode(chunk_representation, encoded),
            ),
            None => Ok(
                repeat(
                    chunk_representation.fill_value().as_slice(),
                    chunk_representation.num_elements(),
                ),
            ),
        }
    }

    /// The bytes of the region that an item addresses in its chunk, from what
    /// the store holds under the chunk's key.
    pub fn retrieve_chunk_subset_bytes(&self, item: &ChunksItem, value_encoded: Option<&Vec<u8>>) -> (result:
        Result<Vec<u8>, PipelineError>)
        ensures
            same_outcome(result, self.region_bytes(*item, stored_bytes(value_encoded))),
            result is Ok ==> result->Ok_0@.len() == item.chunk_subset.count()
                * item.representation.width(),
    {
        let chunk = &item.representation;
        let shape = chunk.shape();
        let width = chunk.element_size();
        let ghost dims = ints(shape@);
        if !item.chunk_subset.inbounds(shape.as_slice()) {
            return Err(PipelineError::OutOfBounds);
        }
        proof {
            lemma_fits_product(item.chunk_subset.origin(), item.chunk_subset.extent(), dims);
        }
        match value_encoded {
            None => {
                let count = match item.chunk_subset.num_elements() {
                    Some(n) => n,
                    None => {
                        assert(false);
                        0
                    },
                };
                proof {
                    lemma_extract_repeated(
                        chunk.fill(),
                        dims,
                        item.chunk_subset.origin(),
                        item.chunk_subset.extent(),
                    );
                    let pe = item.chunk_subset.count();
                    let ph = chunk.count();
                    let w = chunk.width();
                    assert(pe * w <= ph * w) by (nonlinear_arith)
                        requires
                            0 <= pe <= ph,
                            0 <= w,
                    ;
                }
                Ok(repeat(chunk.fill_value().as_slice(), count))
            },
            Some(_) => {
                let bytes = match self.retrieve_chunk_bytes(chunk, value_encoded) {
                    Ok(bytes) => bytes,
                    Err(e) => {
                        return Err(e);
                    },
                };
                if item.chunk_subset.is_whole(shape.as_slice()) {
                    proof {
                        lemma_extract_whole(bytes@, dims, chunk.width());
                        assert(item.chunk_subset.origin() == zero_origin(dims.len()));
                    }
                    Ok(bytes)
                } else {
                    Ok(extract(bytes.as_slice(), shape.as_slice(), &item.chunk_subset, width))
                }
            },
        }
    }

    /// Retrieves an item into the caller's buffer `output` of the given
    /// shape, from what the store holds under the chunk's key. Bytes outside
    /// the item's region of the buffer are kept; on failure the whole buffer
    /// is.
    pub fn retrieve_chunk(
        &self,
        item: &ChunksItem,
        value_encoded: Option<&Vec<u8>>,
        output: &mut Vec<u8>,
        output_shape: &[u64],
    ) -> (result: Result<(), PipelineError>)
        ensures
            match result {
                Ok(()) => self.retrieved(
                    *item,
                    stored_bytes(value_encoded),
                    old(output)@,
                    output_shape@,
                ) == Ok::<Seq<u8>, PipelineError>(final(output)@),
                Err(e) => self.retrieved(
                    *item,
                    stored_bytes(value_encoded),
                    old(output)@,
                    output_shape@,
                ) == Err::<Seq<u8>, PipelineError>(e) && final(output)@ == old(output)@,
            },
    {
        match check_item(item, output.len(), output_shape) {
            Some(e) => {
                return Err(e);
            },
            None => {},
        }
        if !same_count(item) {
            return Err(PipelineError::UnsupportedSelection);
        }
        let region = match self.retrieve_chunk_subset_bytes(item, value_encoded) {
            Ok(region) => region,
            Err(e) => {
                return Err(e);
            },
        };
        update(
            output,
            output_shape,
            &item.subset,
            item.representation.element_size(),
            region.as_slice(),
        );
        Ok(())
    }
}

/// The bytes of a chunk, from what the chain decoded: they are the chunk
/// where they are as many as the chunk has, and a failure else, as where
/// the chain gave none.
pub fn checked_chunk(chunk: &ChunkRepresentation, decoded: Option<Vec<u8>>) -> (result: Result<
    Vec<u8>,
    PipelineError,
>)
    ensures
        match decoded {
            Some(bytes) => if bytes@.len() == chunk.count() * chunk.width() {
                result == Ok::<Vec<u8>, PipelineError>(bytes)
            } else {
                result == Err::<Vec<u8>, PipelineError>(PipelineError::DecodeFailure)
            },
            None => result == Err::<Vec<u8>, PipelineError>(PipelineError::DecodeFailure),
        },
{
    let count = chunk.num_elements();
    let width = chunk.element_size();
    match decoded {
        Some(bytes) => {
            if bytes.len() == (count as usize) * width {
                Ok(bytes)
            } else {
                Err(PipelineError::DecodeFailure)
            }
        },
        None => Err(PipelineError::DecodeFailure),
    }
}

/// Whether the region of the buffer and the region of the chunk hold the
/// same number of elements.
pub(crate) fn same_count(item: &ChunksItem) -> (same: bool)
    requires
        fits(
            item.chunk_subset.origin(),
            item.chunk_subset.extent(),
            ints(item.representation.dims()),
        ),
    ensures
        same == (item.subset.count() == item.chunk_subset.count()),
{
    let shape = item.representation.shape();
    proof {
        lemma_fits_product(
            item.chunk_subset.origin(),
            item.chunk_subset.extent(),
            ints(shape@),
        );
    }
    match (item.subset.num_elements(), item.chunk_subset.num_elements()) {
        (Some(a), Some(b)) => a == b,
        _ => false,
    }
}

/// Why a buffer of `size` bytes and the given shape cannot take part in the
/// work on an item; `None` where it can.
pub fn check_item(item: &ChunksItem, size: usize, shape: &[u64]) -> (problem: Option<PipelineError>)
    ensures
        problem == mismatch(*item, size as nat, shape@),
{
    let sized = holds(size, shape, item.representation.element_size());
    if !sized {
        return Some(PipelineError::NonContiguousBuffer);
    }
    if !item.subset.inbounds(shape) {
        return Some(PipelineError::OutOfBounds);
    }
    if !item.chunk_subset.inbounds(item.representation.shape().as_slice()) {
        return Some(PipelineError::OutOfBounds);
    }
    None
}

} // verus!
