//! Storing: from the bytes of the caller's buffer, and the bytes that the
//! store holds for a chunk, to what the store is to hold afterwards. A chunk
//! whose every element is the fill value is not kept: its key is erased.

use vstd::prelude::*;
use crate::buffer::{extract, extracted, is_uniform, lemma_fits_product, repeat, repeated,
    uniform, update, updated, zero_origin};
use crate::chunk::ChunkRepresentation;
use crate::error::PipelineError;
use crate::layout::{ints, product};
use crate::pipeline::{ChunksItem, CodecPipelineImpl, StoreAction};
use crate::region::fits;
use crate::retrieval::{borrowed, check_item, held, mismatch, same_count, stored_bytes};
use crate::subset::ArraySubset;

verus! {

impl StoreAction {
    /// What the key holds once the action is done; `None` where it is
    /// erased.
    pub open spec fn value(&self) -> Option<Seq<u8>> {
        match *self {
            StoreAction::Erase => None,
            StoreAction::Write(bytes) => Some(bytes@),
        }
    }
}

/// Whether an executable result is the action that leaves the key as the
/// model says, or fails as the model does.
pub open spec fn same_action(
    result: Result<StoreAction, PipelineError>,
    model: Result<Option<Seq<u8>>, PipelineError>,
) -> bool {
    match result {
        Ok(action) => model == Ok::<Option<Seq<u8>>, PipelineError>(action.value()),
        Err(e) => model == Err::<Option<Seq<u8>>, PipelineError>(e),
    }
}

/// What is to be done with what the chain encoded a chunk to: write the
/// bytes, or fail where the chain gave none.
pub fn write_action(encoded: Option<Vec<u8>>) -> (result: Result<StoreAction, PipelineError>)
    ensures
        match encoded {
            Some(bytes) => result == Ok::<StoreAction, PipelineError>(StoreAction::Write(bytes)),
            None => result == Err::<StoreAction, PipelineError>(PipelineError::StoreWriteFailure),
        },
{
    match encoded {
        Some(bytes) => Ok(StoreAction::Write(bytes)),
        None => Err(PipelineError::StoreWriteFailure),
    }
}

/// The region is the whole of an array of the given shape.
pub open spec fn whole(origin: Seq<int>, extent: Seq<int>, shape: Seq<int>) -> bool {
    origin =~= zero_origin(shape.len()) && extent =~= shape
}

/// The bytes that an item takes from the caller's buffer for its region of
/// the chunk: the region of the buffer, or, where the buffer is a scalar,
/// its one element for every element of the region of the chunk.
pub open spec fn input_bytes(item: ChunksItem, input: Seq<u8>, shape: Seq<u64>) -> Seq<u8> {
    if item.subset.origin().len() == 0 {
        repeated(input, item.chunk_subset.count())
    } else {
        extracted(
            input,
            ints(shape),
            item.subset.origin(),
            item.subset.extent(),
            item.representation.width(),
        )
    }
}

/// The values that a list of actions leaves under their keys.
pub open spec fn values(actions: Seq<StoreAction>) -> Seq<Option<Seq<u8>>> {
    Seq::new(actions.len(), |i: int| actions[i].value())
}

impl CodecPipelineImpl {
    /// What the key of a chunk holds after a chunk of these bytes is stored:
    /// nothing where every element is the fill value, else the encoded
    /// bytes.
    pub open spec fn written(&self, chunk: ChunkRepresentation, bytes: Seq<u8>) -> Result<
        Option<Seq<u8>>,
        PipelineError,
    > {
        if uniform(bytes, chunk.fill()) {
            Ok(None)
        } else {
            match self.encoded(chunk, bytes) {
                Some(encoded) => Ok(Some(encoded)),
                None => Err(PipelineError::StoreWriteFailure),
            }
        }
    }

    /// The bytes of a chunk after `region` has been written over the region
    /// given by `origin` and `extent`. A region that is the whole chunk
    /// replaces it; any other is written over what the store holds.
    pub open spec fn merged(
        &self,
        chunk: ChunkRepresentation,
        stored: Option<Seq<u8>>,
        region: Seq<u8>,
        origin: Seq<int>,
        extent: Seq<int>,
    ) -> Result<Seq<u8>, PipelineError> {
        if !fits(origin, extent, ints(chunk.dims())) {
            Err(PipelineError::OutOfBounds)
        } else if region.len() != product(extent) * chunk.width() {
            Err(PipelineError::UnsupportedSelection)
        } else if whole(origin, extent, ints(chunk.dims())) {
            Ok(region)
        } else {
            match self.chunk_bytes(chunk, stored) {
                Err(e) => Err(e),
                Ok(bytes) => Ok(updated(bytes, ints(chunk.dims()), origin, extent, chunk.width(), region)),
            }
        }
    }

    /// What the key of a chunk holds after `region` has been written over
    /// the region given by `origin` and `extent`.
    pub open spec fn merged_written(
        &self,
        chunk: ChunkRepresentation,
        stored: Option<Seq<u8>>,
        region: Seq<u8>,
        origin: Seq<int>,
        extent: Seq<int>,
    ) -> Result<Option<Seq<u8>>, PipelineError> {
        match self.merged(chunk, stored, region, origin, extent) {
            Err(e) => Err(e),
            Ok(bytes) => self.written(chunk, bytes),
        }
    }

    /// What the key of an item's chunk holds after the item has been stored
    /// from the caller's buffer.
    pub open spec fn stored(
        &self,
        item: ChunksItem,
        current: Option<Seq<u8>>,
        input: Seq<u8>,
        shape: Seq<u64>,
    ) -> Result<Option<Seq<u8>>, PipelineError> {
        match mismatch(item, input.len(), shape) {
            Some(e) => Err(e),
            None => if item.subset.origin().len() != 0 && item.subset.count()
                != item.chunk_subset.count() {
                Err(PipelineError::UnsupportedSelection)
            } else {
                self.merged_written(
                    item.representation,
                    current,
                    input_bytes(item, input, shape),
                    item.chunk_subset.origin(),
                    item.chunk_subset.extent(),
                )
            },
        }
    }

    /// What the keys of the first `n` items of a batch hold after each has
    /// been stored from the caller's buffer, or the failure of the first
    /// item that cannot be.
    pub open spec fn stored_all(
        &self,
        work: Seq<(ChunksItem, Option<Vec<u8>>)>,
        input: Seq<u8>,
        shape: Seq<u64>,
        n: int,
    ) -> Result<Seq<Option<Seq<u8>>>, PipelineError>
        decreases n,
    {
        if n <= 0 {
            Ok(Seq::empty())
        } else {
            match self.stored_all(work, input, shape, n - 1) {
                Err(e) => Err(e),
                Ok(before) => match self.stored(work[n - 1].0, held(work[n - 1].1), input, shape) {
                    Err(e) => Err(e),
                    Ok(value) => Ok(before.push(value)),
                },
            }
        }
    }

    /// Once an item has failed, the failure stays however many more are
    /// looked at.
    pub proof fn lemma_stored_all_fails(
        &self,
        work: Seq<(ChunksItem, Option<Vec<u8>>)>,
        input: Seq<u8>,
        shape: Seq<u64>,
        m: int,
        n: int,
    )
        requires
            0 <= m <= n,
            self.stored_all(work, input, shape, m) is Err,
        ensures
            self.stored_all(work, input, shape, n) == self.stored_all(work, input, shape, m),
        decreases n - m,
    {
        if m < n {
            self.lemma_stored_all_fails(work, input, shape, m, n - 1);
        }
    }

    /// What is to be done to the key of a chunk to store a chunk of these
    /// bytes: erase it where every element is the fill value, else write
    /// the encoded bytes.
    pub fn store_chunk_bytes(&self, chunk_representation: &ChunkRepresentation, value_decoded: &Vec<u8>) -> (result:
        Result<StoreAction, PipelineError>)
        ensures
            same_action(result, self.written(*chunk_representation, value_decoded@)),
    {
        if is_uniform(value_decoded.as_slice(), chunk_representation.fill_value().as_slice()) {
            Ok(StoreAction::Erase)
        } else {
            write_action(self.encode(chunk_representation, value_decoded))
        }
    }

    /// What is to be done to the key of a chunk to write `chunk_subset_bytes`
    /// over the region `chunk_subset` of the chunk, given what the store
    /// holds under the key. What the store holds is not looked at where the
    /// region is the whole chunk.
    pub fn store_chunk_subset_bytes(
        &self,
        chunk_representation: &ChunkRepresentation,
        value_encoded: Option<&Vec<u8>>,
        chunk_subset_bytes: &Vec<u8>,
        chunk_subset: &ArraySubset,
    ) -> (result: Result<StoreAction, PipelineError>)
        ensures
            same_action(
                result,
                self.merged_written(
                    *chunk_representation,
                    stored_bytes(value_encoded),
                    chunk_subset_bytes@,
                    chunk_subset.origin(),
                    chunk_subset.extent(),
                ),
            ),
    {
        let shape = chunk_representation.shape();
        let width = chunk_representation.element_size();
        if !chunk_subset.inbounds(shape.as_slice()) {
            return Err(PipelineError::OutOfBounds);
        }
        proof {
            lemma_fits_product(chunk_subset.origin(), chunk_subset.extent(), ints(shape@));
            let pe = chunk_subset.count();
            let ph = chunk_representation.count();
            let w = chunk_representation.width();
            assert(0 <= pe * w <= ph * w) by (nonlinear_arith)
                requires
                    0 <= pe <= ph,
                    0 <= w,
            ;
        }
        let count = match chunk_subset.num_elements() {
            Some(n) => n,
            None => {
                assert(false);
                0
            },
        };
        if chunk_subset_bytes.len() != (count as usize) * width {
            return Err(PipelineError::UnsupportedSelection);
        }
        if chunk_subset.is_whole(shape.as_slice()) {
            return self.store_chunk_bytes(chunk_representation, chunk_subset_bytes);
        }
        let mut bytes = match self.retrieve_chunk_bytes(chunk_representation, value_encoded) {
            Ok(bytes) => bytes,
            Err(e) => {
                return Err(e);
            },
        };
        update(&mut bytes, shape.as_slice(), chunk_subset, width, chunk_subset_bytes.as_slice());
        self.store_chunk_bytes(chunk_representation, &bytes)
    }

    /// Whether the store must be read before an item can be stored: it need
    /// not be where the item's region is the whole chunk.
    pub fn reads_before_write(item: &ChunksItem) -> (needed: bool)
        ensures
            needed == !whole(
                item.chunk_subset.origin(),
                item.chunk_subset.extent(),
                ints(item.representation.dims()),
            ),
    {
        !item.chunk_subset.is_whole(item.representation.shape().as_slice())
    }

    /// What is to be done to the key of an item's chunk to store the item
    /// from the caller's buffer `input` of the given shape, given what the
    /// store holds under the key.
    pub fn store_chunk(
        &self,
        item: &ChunksItem,
        value_encoded: Option<&Vec<u8>>,
        input: &[u8],
        input_shape: &[u64],
    ) -> (result: Result<StoreAction, PipelineError>)
        ensures
            same_action(
                result,
                self.stored(*item, stored_bytes(value_encoded), input@, input_shape@),
            ),
    {
        match check_item(item, input.len(), input_shape) {
            Some(e) => {
                return Err(e);
            },
            None => {},
        }
        let chunk = &item.representation;
        let width = chunk.element_size();
        let region = if item.subset.dimensionality() == 0 {
            let shape = chunk.shape();
            proof {
                lemma_fits_product(
                    item.chunk_subset.origin(),
                    item.chunk_subset.extent(),
                    ints(shape@),
                );
                let pe = item.chunk_subset.count();
                let ph = chunk.count();
                let w = chunk.width();
                assert(0 <= pe * w <= ph * w) by (nonlinear_arith)
                    requires
                        0 <= pe <= ph,
                        0 <= w,
                ;
                assert(ints(input_shape@) =~= Seq::<int>::empty());
                assert(product(ints(input_shape@)) == 1);
                assert(1 * w == w) by (nonlinear_arith);
            }
            let count = match item.chunk_subset.num_elements() {
                Some(n) => n,
                None => {
                    assert(false);
                    0
                },
            };
            repeat(input, count)
        } else {
            if !same_count(item) {
                return Err(PipelineError::UnsupportedSelection);
            }
            extract(input, input_shape, &item.subset, width)
        };
        self.store_chunk_subset_bytes(chunk, value_encoded, &region, &item.chunk_subset)
    }

    /// What is to be done to the keys of a batch of items to store each from
    /// the caller's buffer `input` of the given shape, given what the store
    /// held under each key. The first item that fails fails the batch.
    pub fn store_chunks(
        &self,
        work: &[(ChunksItem, Option<Vec<u8>>)],
        input: &[u8],
        input_shape: &[u64],
    ) -> (result: Result<Vec<StoreAction>, PipelineError>)
        ensures
            match result {
                Ok(actions) => self.stored_all(work@, input@, input_shape@, work@.len() as int)
                    == Ok::<Seq<Option<Seq<u8>>>, PipelineError>(values(actions@)),
                Err(e) => self.stored_all(work@, input@, input_shape@, work@.len() as int) == Err::<
                    Seq<Option<Seq<u8>>>,
                    PipelineError,
                >(e),
            },
    {
        let mut actions: Vec<StoreAction> = Vec::new();
        let mut i: usize = 0;
        proof {
            assert(values(actions@) =~= Seq::<Option<Seq<u8>>>::empty());
        }
        while i < work.len()
            invariant
                i <= work.len(),
                actions@.len() == i,
                self.stored_all(work@, input@, input_shape@, i as int) == Ok::<
                    Seq<Option<Seq<u8>>>,
                    PipelineError,
                >(values(actions@)),
            decreases work.len() - i,
        {
            let ghost before = values(actions@);
            let stored = borrowed(&work[i].1);
            match self.store_chunk(&work[i].0, stored, input, input_shape) {
                Ok(action) => {
                    let ghost value = action.value();
                    actions.push(action);
                    proof {
                        assert(values(actions@) =~= before.push(value));
                    }
                },
                Err(e) => {
                    proof {
                        self.lemma_stored_all_fails(
                            work@,
                            input@,
                            input_shape@,
                            i as int + 1,
                            work@.len() as int,
                        );
                    }
                    return Err(e);
                },
            }
            i += 1;
        }
        Ok(actions)
    }
}

} // verus!
