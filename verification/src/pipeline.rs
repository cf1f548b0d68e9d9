//! The codec pipeline: from the descriptions of chunks to units of work, and
//! from a unit of work and the bytes found in the store to the bytes of the
//! caller's buffer or to what is written back.
//!
//! The pipeline itself reads and writes no store. A caller reads the encoded
//! bytes of a chunk, hands them in, and carries out the `StoreAction` that
//! comes back.

use vstd::prelude::*;
use zarrs::array::CodecChain;
use crate::chunk::{representation_error, ChunkRepresentation};
use crate::chain::{chain_described, models_of, ChainDescription, ChainModel, CodecText};
use crate::codec::{chain_codecs, chain_decode, chain_decoded, chain_encode, chain_encoded,
    chain_of, default_options, key_is_valid, parse_codecs, parsed_codecs, same_bytes, supported,
    valid_key};
use crate::error::PipelineError;
use crate::buffer::lemma_fits_product;
use crate::layout::{ints, positive, product};
use crate::region::fits;
use crate::selection::{cover, covered, lows, spans, Selection};
use crate::store::{resolve, resolved, CodecPipelineStore};
use crate::subset::ArraySubset;

verus! {

/// The description of one chunk as a caller gives it: the address of the
/// chunk, its shape, the name of its data type, its fill value, the selection
/// in the caller's buffer and the selection in the chunk.
pub type ChunksItemRaw = (String, Vec<u64>, String, Vec<u8>, Vec<Selection>, Vec<Selection>);

/// One unit of work: a chunk, the region addressed within it, and the region
/// of the caller's buffer that corresponds to it.
#[derive(Debug)]
pub struct ChunksItem {
    /// The store that holds the chunk.
    pub store: CodecPipelineStore,
    /// The key of the chunk in the store.
    pub key: String,
    /// The region addressed, in the coordinates of the chunk.
    pub chunk_subset: ArraySubset,
    /// The corresponding region, in the coordinates of the caller's buffer.
    pub subset: ArraySubset,
    /// The shape, data type and fill value of the chunk.
    pub representation: ChunkRepresentation,
}

/// What is to be done to the key of a chunk after a write.
#[derive(Debug, PartialEq, Eq)]
pub enum StoreAction {
    /// Remove the key: every element of the chunk is the fill value.
    Erase,
    /// Store these encoded bytes under the key.
    Write(Vec<u8>),
}

/// A codec chain that this pipeline works with: one `bytes` codec and no
/// more than 31 `gzip` and `crc32c` codecs after it.
pub struct SupportedChain {
    chain: CodecChain,
}

impl SupportedChain {
    #[verifier::type_invariant]
    spec fn valid(self) -> bool {
        supported(self.chain)
    }

    /// The codecs of the chain.
    pub closed spec fn codecs(&self) -> ChainModel {
        chain_codecs(self.chain)->Some_0
    }

    /// Decodes a stored chunk through the chain.
    pub(crate) fn decode(
        &self,
        options: (bool, bool, usize),
        encoded: &Vec<u8>,
        shape: &Vec<u64>,
        data_type: &str,
        fill_value: &Vec<u8>,
    ) -> (decoded: Option<Vec<u8>>)
        requires
            positive(ints(shape@)),
            product(ints(shape@)) * fill_value@.len() <= isize::MAX,
            product(ints(shape@)) <= isize::MAX,
        ensures
            same_bytes(
                decoded,
                chain_decoded(
                    self.codecs(),
                    options.0,
                    options.1,
                    options.2,
                    encoded@,
                    shape@,
                    data_type@,
                    fill_value@,
                ),
            ),
    {
        proof {
            use_type_invariant(self);
        }
        chain_decode(&self.chain, options, encoded, shape, data_type, fill_value)
    }

    /// Encodes the bytes of a chunk through the chain.
    pub(crate) fn encode(
        &self,
        options: (bool, bool, usize),
        decoded: &Vec<u8>,
        shape: &Vec<u64>,
        data_type: &str,
        fill_value: &Vec<u8>,
    ) -> (encoded: Option<Vec<u8>>)
        requires
            positive(ints(shape@)),
            product(ints(shape@)) * fill_value@.len() <= isize::MAX,
            product(ints(shape@)) <= isize::MAX,
        ensures
            same_bytes(
                encoded,
                chain_encoded(
                    self.codecs(),
                    options.0,
                    options.1,
                    options.2,
                    decoded@,
                    shape@,
                    data_type@,
                    fill_value@,
                ),
            ),
    {
        proof {
            use_type_invariant(self);
        }
        chain_encode(&self.chain, options, decoded, shape, data_type, fill_value)
    }

    /// The chain that a description describes.
    pub fn build(description: &ChainDescription) -> (chain: SupportedChain)
        ensures
            chain.codecs() == description.model(),
    {
        let packers = description.packers();
        SupportedChain { chain: chain_of(description.endian(), packers) }
    }
}

/// The chain that a text describes, a JSON list of codec metadata; `None`
/// where the text is no such list or describes no chain that the pipeline
/// works with.
pub open spec fn text_described(text: Seq<char>) -> Option<ChainModel> {
    match parsed_codecs(text) {
        Some(entries) => chain_described(entries),
        None => None,
    }
}

/// The chain that the entries of a list of codec metadata describe, where
/// there is a list.
pub open spec fn entries_described(entries: Option<Vec<CodecText>>) -> Option<ChainModel> {
    match entries {
        Some(e) => chain_described(models_of(e@)),
        None => None,
    }
}

/// A codec chain with its options, and the store that chunks are kept in
/// once an address has been resolved.
pub struct CodecPipelineImpl {
    codec_chain: SupportedChain,
    store: Option<CodecPipelineStore>,
    validate_checksums: bool,
    store_empty_chunks: bool,
    concurrent_target: usize,
}

/// A unit of work as plain values.
pub struct ItemModel {
    pub store: CodecPipelineStore,
    pub key: Seq<char>,
    pub chunk_origin: Seq<int>,
    pub chunk_extent: Seq<int>,
    pub origin: Seq<int>,
    pub extent: Seq<int>,
    pub dims: Seq<u64>,
    pub dtype: Seq<char>,
    pub fill: Seq<u8>,
}

impl ChunksItem {
    /// The unit of work as plain values.
    pub open spec fn model(&self) -> ItemModel {
        ItemModel {
            store: self.store,
            key: self.key@,
            chunk_origin: self.chunk_subset.origin(),
            chunk_extent: self.chunk_subset.extent(),
            origin: self.subset.origin(),
            extent: self.subset.extent(),
            dims: self.representation.dims(),
            dtype: self.representation.dtype(),
            fill: self.representation.fill(),
        }
    }
}

/// Whether the region of the buffer and the region of the chunk can be
/// paired: both hold the same number of elements, unless the buffer is a
/// scalar that stands for every element of the region of the chunk.
pub open spec fn pairs(chunk_ranges: Seq<(int, int)>, ranges: Seq<(int, int)>) -> bool {
    ranges.len() == 0 || product(spans(ranges)) == product(spans(chunk_ranges))
}

/// The unit of work that a description gives for a buffer of the given
/// shape, with the store in use, if any; or why it gives none. The address
/// is looked at first, then the key, the selection in the chunk, the
/// selection in the buffer, the representation, and last whether the two
/// regions can be paired.
pub open spec fn described(
    cached: Option<CodecPipelineStore>,
    raw: ChunksItemRaw,
    shape: Seq<u64>,
) -> Result<ItemModel, PipelineError> {
    match resolved(cached, raw.0@) {
        Err(e) => Err(e),
        Ok((store, key)) => if !key_is_valid(key) {
            Err(PipelineError::InvalidStoreKey)
        } else {
            match covered(raw.5@, raw.1@) {
                Err(e) => Err(e),
                Ok(chunk_ranges) => match covered(raw.4@, shape) {
                    Err(e) => Err(e),
                    Ok(ranges) => match representation_error(raw.1@, raw.2@, raw.3@) {
                        Some(e) => Err(e),
                        None => if pairs(chunk_ranges, ranges) {
                            Ok(
                                ItemModel {
                                    store,
                                    key,
                                    chunk_origin: lows(chunk_ranges),
                                    chunk_extent: spans(chunk_ranges),
                                    origin: lows(ranges),
                                    extent: spans(ranges),
                                    dims: raw.1@,
                                    dtype: raw.2@,
                                    fill: raw.3@,
                                },
                            )
                        } else {
                            Err(PipelineError::UnsupportedSelection)
                        },
                    },
                },
            }
        },
    }
}

/// The store in use after the addresses of the first `n` descriptions have
/// been resolved.
pub open spec fn cache_after(
    cached: Option<CodecPipelineStore>,
    raws: Seq<ChunksItemRaw>,
    n: int,
) -> Option<CodecPipelineStore>
    decreases n,
{
    if n <= 0 {
        cached
    } else {
        let before = cache_after(cached, raws, n - 1);
        match resolved(before, raws[n - 1].0@) {
            Ok((store, _)) => Some(store),
            Err(_) => before,
        }
    }
}

/// The units of work that the first `n` descriptions give, or the failure of
/// the first description that gives none.
pub open spec fn built(
    cached: Option<CodecPipelineStore>,
    raws: Seq<ChunksItemRaw>,
    shape: Seq<u64>,
    n: int,
) -> Result<Seq<ItemModel>, PipelineError>
    decreases n,
{
    if n <= 0 {
        Ok(Seq::empty())
    } else {
        match built(cached, raws, shape, n - 1) {
            Err(e) => Err(e),
            Ok(models) => match described(cache_after(cached, raws, n - 1), raws[n - 1], shape) {
                Err(e) => Err(e),
                Ok(model) => Ok(models.push(model)),
            },
        }
    }
}

/// Once a description has failed, the failure stays however many more are
/// looked at.
pub proof fn lemma_built_fails(
    cached: Option<CodecPipelineStore>,
    raws: Seq<ChunksItemRaw>,
    shape: Seq<u64>,
    m: int,
    n: int,
)
    requires
        0 <= m <= n,
        built(cached, raws, shape, m) is Err,
    ensures
        built(cached, raws, shape, n) == built(cached, raws, shape, m),
    decreases n - m,
{
    if m < n {
        lemma_built_fails(cached, raws, shape, m, n - 1);
    }
}

/// The models of a list of units of work.
pub open spec fn models(items: Seq<ChunksItem>) -> Seq<ItemModel> {
    Seq::new(items.len(), |i: int| items[i].model())
}

/// The number of items that may be worked on at one time under the limit
/// that a caller gives: the limit itself, and one where the limit is zero,
/// so that zero and one both ask for one item after the other.
pub fn chunk_concurrency(chunk_concurrent_limit: usize) -> (limit: usize)
    ensures
        limit == (if chunk_concurrent_limit == 0 {
            1
        } else {
            chunk_concurrent_limit
        }),
{
    if chunk_concurrent_limit == 0 {
        1
    } else {
        chunk_concurrent_limit
    }
}

impl CodecPipelineImpl {
    /// The codecs of the chain, each by its configuration, in the order of
    /// encoding.
    pub closed spec fn codecs(&self) -> ChainModel {
        self.codec_chain.codecs()
    }

    /// The store in use; `None` until the first address is resolved.
    pub closed spec fn cached(&self) -> Option<CodecPipelineStore> {
        self.store
    }

    /// Whether codecs validate checksums when decoding.
    pub closed spec fn validates(&self) -> bool {
        self.validate_checksums
    }

    /// Whether codecs store chunks that hold nothing but the fill value.
    pub closed spec fn stores_empty(&self) -> bool {
        self.store_empty_chunks
    }

    /// The number of concurrent operations that codecs aim at.
    pub closed spec fn target(&self) -> usize {
        self.concurrent_target
    }

    /// A pipeline for the codec chain that `metadata` describes, a JSON list
    /// of codec metadata: one `bytes` codec, followed by any number of `gzip`
    /// and `crc32c` codecs, no more than 32 codecs in all. An option left out
    /// is taken from the configuration of the codec library.
    pub fn new(
        metadata: &str,
        validate_checksums: Option<bool>,
        store_empty_chunks: Option<bool>,
        concurrent_target: Option<usize>,
    ) -> (result: Result<CodecPipelineImpl, PipelineError>)
        ensures
            match result {
                Ok(pipeline) => {
                    &&& text_described(metadata@) == Some(pipeline.codecs())
                    &&& pipeline.cached() is None
                    &&& validate_checksums is Some ==> pipeline.validates()
                        == validate_checksums->Some_0
                    &&& store_empty_chunks is Some ==> pipeline.stores_empty()
                        == store_empty_chunks->Some_0
                    &&& concurrent_target is Some ==> pipeline.target()
                        == concurrent_target->Some_0
                },
                Err(e) => e == PipelineError::InvalidCodecMetadata && text_described(metadata@)
                    is None,
            },
    {
        CodecPipelineImpl::with_codecs(
            parse_codecs(metadata),
            default_options(),
            validate_checksums,
            store_empty_chunks,
            concurrent_target,
        )
    }

    /// A pipeline for the chain that the entries of a list of codec metadata
    /// describe, or the failure where there is no list or it describes no
    /// chain that the pipeline works with. An option left out is taken from
    /// `defaults`: whether checksums are validated, whether empty chunks are
    /// stored, and the concurrency that codecs aim at.
    pub fn with_codecs(
        entries: Option<Vec<CodecText>>,
        defaults: (bool, bool, usize),
        validate_checksums: Option<bool>,
        store_empty_chunks: Option<bool>,
        concurrent_target: Option<usize>,
    ) -> (result: Result<CodecPipelineImpl, PipelineError>)
        ensures
            match result {
                Ok(pipeline) => {
                    &&& entries_described(entries) == Some(pipeline.codecs())
                    &&& pipeline.cached() is None
                    &&& pipeline.validates() == (match validate_checksums {
                        Some(v) => v,
                        None => defaults.0,
                    })
                    &&& pipeline.stores_empty() == (match store_empty_chunks {
                        Some(v) => v,
                        None => defaults.1,
                    })
                    &&& pipeline.target() == (match concurrent_target {
                        Some(v) => v,
                        None => defaults.2,
                    })
                },
                Err(e) => e == PipelineError::InvalidCodecMetadata && entries_described(entries)
                    is None,
            },
    {
        let description = match entries {
            Some(list) => match ChainDescription::interpret(&list) {
                Some(description) => description,
                None => {
                    return Err(PipelineError::InvalidCodecMetadata);
                },
            },
            None => {
                return Err(PipelineError::InvalidCodecMetadata);
            },
        };
        let codec_chain = SupportedChain::build(&description);
        Ok(
            CodecPipelineImpl {
                codec_chain,
                store: None,
                validate_checksums: match validate_checksums {
                    Some(v) => v,
                    None => defaults.0,
                },
                store_empty_chunks: match store_empty_chunks {
                    Some(v) => v,
                    None => defaults.1,
                },
                concurrent_target: match concurrent_target {
                    Some(v) => v,
                    None => defaults.2,
                },
            },
        )
    }

    /// The store in use; `None` until the first address is resolved.
    pub fn store(&self) -> (store: Option<CodecPipelineStore>)
        ensures
            store == self.cached(),
    {
        self.store
    }

    /// Whether codecs validate checksums when decoding.
    pub fn validate_checksums(&self) -> (v: bool)
        ensures
            v == self.validates(),
    {
        self.validate_checksums
    }

    /// Whether codecs store chunks that hold nothing but the fill value.
    pub fn store_empty_chunks(&self) -> (v: bool)
        ensures
            v == self.stores_empty(),
    {
        self.store_empty_chunks
    }

    /// The number of concurrent operations that codecs aim at.
    pub fn concurrent_target(&self) -> (n: usize)
        ensures
            n == self.target(),
    {
        self.concurrent_target
    }

    /// What the chain decodes the stored bytes of a chunk to; `None` where it
    /// fails.
    pub open spec fn decoded(&self, chunk: ChunkRepresentation, encoded: Seq<u8>) -> Option<
        Seq<u8>,
    > {
        chain_decoded(
            self.codecs(),
            self.validates(),
            self.stores_empty(),
            self.target(),
            encoded,
            chunk.dims(),
            chunk.dtype(),
            chunk.fill(),
        )
    }

    /// What the chain encodes the bytes of a chunk to; `None` where it fails.
    pub open spec fn encoded(&self, chunk: ChunkRepresentation, decoded: Seq<u8>) -> Option<
        Seq<u8>,
    > {
        chain_encoded(
            self.codecs(),
            self.validates(),
            self.stores_empty(),
            self.target(),
            decoded,
            chunk.dims(),
            chunk.dtype(),
            chunk.fill(),
        )
    }

    /// Decodes the stored bytes of a chunk through the chain.
    pub fn decode(&self, chunk: &ChunkRepresentation, encoded: &Vec<u8>) -> (decoded: Option<
        Vec<u8>,
    >)
        ensures
            same_bytes(decoded, self.decoded(*chunk, encoded@)),
    {
        let shape = chunk.shape();
        let data_type = chunk.data_type();
        let fill_value = chunk.fill_value();
        self.codec_chain.decode(
            (self.validate_checksums, self.store_empty_chunks, self.concurrent_target),
            encoded,
            shape,
            data_type,
            fill_value,
        )
    }

    /// Encodes the bytes of a chunk through the chain.
    pub fn encode(&self, chunk: &ChunkRepresentation, decoded: &Vec<u8>) -> (encoded: Option<
        Vec<u8>,
    >)
        ensures
            same_bytes(encoded, self.encoded(*chunk, decoded@)),
    {
        let shape = chunk.shape();
        let data_type = chunk.data_type();
        let fill_value = chunk.fill_value();
        self.codec_chain.encode(
            (self.validate_checksums, self.store_empty_chunks, self.concurrent_target),
            decoded,
            shape,
            data_type,
            fill_value,
        )
    }

    /// Resolves the address of a chunk to the store and to the key of the
    /// chunk below the store's root. The first address resolved decides the
    /// store, which the pipeline keeps.
    pub fn get_store_and_path(&mut self, chunk_path: &str) -> (result: Result<
        (CodecPipelineStore, String),
        PipelineError,
    >)
        ensures
            match result {
                Ok((store, key)) => resolved(old(self).cached(), chunk_path@) == Ok::<
                    (CodecPipelineStore, Seq<char>),
                    PipelineError,
                >((store, key@)) && final(self).cached() == Some(store),
                Err(e) => resolved(old(self).cached(), chunk_path@) == Err::<
                    (CodecPipelineStore, Seq<char>),
                    PipelineError,
                >(e) && final(self).cached() == old(self).cached(),
            },
            final(self).codecs() == old(self).codecs(),
            final(self).validates() == old(self).validates(),
            final(self).stores_empty() == old(self).stores_empty(),
            final(self).target() == old(self).target(),
    {
        resolve(&mut self.store, chunk_path)
    }

    /// The representation of a chunk of the given shape, data type and fill
    /// value.
    pub fn get_chunk_representation(chunk_shape: Vec<u64>, dtype: &str, fill_value: Vec<u8>) -> (result:
        Result<ChunkRepresentation, PipelineError>)
        ensures
            match result {
                Ok(r) => representation_error(chunk_shape@, dtype@, fill_value@) is None
                    && r.dims() == chunk_shape@ && r.dtype() == dtype@ && r.fill() == fill_value@,
                Err(e) => representation_error(chunk_shape@, dtype@, fill_value@) == Some(e),
            },
    {
        ChunkRepresentation::new(chunk_shape, dtype, fill_value)
    }

    /// The unit of work that one description gives for a buffer of the given
    /// shape.
    pub fn describe(&mut self, raw: &ChunksItemRaw, shape: &[u64]) -> (result: Result<
        ChunksItem,
        PipelineError,
    >)
        ensures
            match result {
                Ok(item) => described(old(self).cached(), *raw, shape@) == Ok::<
                    ItemModel,
                    PipelineError,
                >(item.model()),
                Err(e) => described(old(self).cached(), *raw, shape@) == Err::<
                    ItemModel,
                    PipelineError,
                >(e),
            },
            final(self).cached() == (match resolved(old(self).cached(), raw.0@) {
                Ok((store, _)) => Some(store),
                Err(_) => old(self).cached(),
            }),
            final(self).codecs() == old(self).codecs(),
            final(self).validates() == old(self).validates(),
            final(self).stores_empty() == old(self).stores_empty(),
            final(self).target() == old(self).target(),
    {
        let (store, key) = match self.get_store_and_path(raw.0.as_str()) {
            Ok(found) => found,
            Err(e) => {
                return Err(e);
            },
        };
        if !valid_key(key.as_str()) {
            return Err(PipelineError::InvalidStoreKey);
        }
        let chunk_subset = match Self::selection_to_array_subset(
            raw.5.as_slice(),
            raw.1.as_slice(),
        ) {
            Ok(subset) => subset,
            Err(e) => {
                return Err(e);
            },
        };
        let subset = match Self::selection_to_array_subset(raw.4.as_slice(), shape) {
            Ok(subset) => subset,
            Err(e) => {
                return Err(e);
            },
        };
        let representation = match Self::get_chunk_representation(
            raw.1.clone(),
            raw.2.as_str(),
            raw.3.clone(),
        ) {
            Ok(representation) => representation,
            Err(e) => {
                return Err(e);
            },
        };
        if subset.dimensionality() != 0 {
            let same = match (subset.num_elements(), chunk_subset.num_elements()) {
                (Some(a), Some(b)) => a == b,
                (None, None) => {
                    proof {
                        lemma_chunk_region_small(chunk_subset, raw.1@);
                    }
                    false
                },
                _ => false,
            };
            if !same {
                return Err(PipelineError::UnsupportedSelection);
            }
        }
        Ok(ChunksItem { store, key, chunk_subset, subset, representation })
    }

    /// The units of work that a batch of descriptions gives for a buffer of
    /// the given shape. The first description that gives none fails the
    /// whole batch.
    pub fn collect_chunk_descriptions(
        &mut self,
        chunk_descriptions: Vec<ChunksItemRaw>,
        shape: &[u64],
    ) -> (result: Result<Vec<ChunksItem>, PipelineError>)
        ensures
            match result {
                Ok(items) => {
                    &&& built(
                        old(self).cached(),
                        chunk_descriptions@,
                        shape@,
                        chunk_descriptions@.len() as int,
                    ) == Ok::<Seq<ItemModel>, PipelineError>(models(items@))
                    &&& final(self).cached() == cache_after(
                        old(self).cached(),
                        chunk_descriptions@,
                        chunk_descriptions@.len() as int,
                    )
                },
                Err(e) => {
                    &&& built(
                        old(self).cached(),
                        chunk_descriptions@,
                        shape@,
                        chunk_descriptions@.len() as int,
                    ) == Err::<Seq<ItemModel>, PipelineError>(e)
                    &&& exists|i: int|
                        0 <= i < chunk_descriptions@.len() && built(
                            old(self).cached(),
                            chunk_descriptions@,
                            shape@,
                            i,
                        ) is Ok && #[trigger] built(
                            old(self).cached(),
                            chunk_descriptions@,
                            shape@,
                            i + 1,
                        ) is Err && final(self).cached() == cache_after(
                            old(self).cached(),
                            chunk_descriptions@,
                            i + 1,
                        )
                },
            },
            final(self).codecs() == old(self).codecs(),
            final(self).validates() == old(self).validates(),
            final(self).stores_empty() == old(self).stores_empty(),
            final(self).target() == old(self).target(),
    {
        let ghost cached = self.cached();
        let ghost raws = chunk_descriptions@;
        let mut items: Vec<ChunksItem> = Vec::new();
        let mut i: usize = 0;
        proof {
            assert(models(items@) =~= Seq::<ItemModel>::empty());
        }
        while i < chunk_descriptions.len()
            invariant
                i <= chunk_descriptions.len(),
                raws == chunk_descriptions@,
                cached == old(self).cached(),
                items@.len() == i,
                built(cached, raws, shape@, i as int) == Ok::<Seq<ItemModel>, PipelineError>(
                    models(items@),
                ),
                self.cached() == cache_after(cached, raws, i as int),
                self.codecs() == old(self).codecs(),
                self.validates() == old(self).validates(),
                self.stores_empty() == old(self).stores_empty(),
                self.target() == old(self).target(),
            decreases chunk_descriptions.len() - i,
        {
            let ghost before = models(items@);
            match self.describe(&chunk_descriptions[i], shape) {
                Ok(item) => {
                    items.push(item);
                    proof {
                        assert(models(items@) =~= before.push(item.model()));
                    }
                },
                Err(e) => {
                    proof {
                        lemma_built_fails(cached, raws, shape@, i as int + 1, raws.len() as int);
                    }
                    return Err(e);
                },
            }
            i += 1;
        }
        Ok(items)
    }

    /// The region that a list of selections addresses in an array of the
    /// given shape, with one range for every axis of the array: the range of
    /// the selection for the axis, and the full range of an axis for which
    /// there is no selection.
    pub fn selection_to_array_subset(selection: &[Selection], shape: &[u64]) -> (result: Result<
        ArraySubset,
        PipelineError,
    >)
        ensures
            match result {
                Ok(subset) => {
                    &&& covered(selection@, shape@) is Ok
                    &&& subset.origin() == lows(covered(selection@, shape@)->Ok_0)
                    &&& subset.extent() == spans(covered(selection@, shape@)->Ok_0)
                    &&& fits(subset.origin(), subset.extent(), ints(shape@))
                },
                Err(e) => covered(selection@, shape@) == Err::<Seq<(int, int)>, PipelineError>(e),
            },
    {
        match cover(selection, shape) {
            Ok(ranges) => {
                let subset = ArraySubset::new_with_ranges(ranges.as_slice());
                proof {
                    let model = covered(selection@, shape@)->Ok_0;
                    assert(subset.origin() =~= lows(model));
                    assert(subset.extent() =~= spans(model)) by {
                        assert forall|i: int| 0 <= i < ranges@.len() implies ranges@[i].start
                            <= #[trigger] ranges@[i].end by {
                            assert(ranges@[i].start <= ranges@[i].end <= shape@[i]);
                        }
                    }
                    assert forall|i: int| 0 <= i < shape@.len() implies 0
                        <= #[trigger] subset.origin()[i] && 0 <= subset.extent()[i]
                        && subset.origin()[i] + subset.extent()[i] <= ints(shape@)[i] by {
                        assert(ranges@[i].start <= ranges@[i].end <= shape@[i]);
                    }
                }
                Ok(subset)
            },
            Err(e) => Err(e),
        }
    }
}

/// The region of a chunk that selections address holds no more elements
/// than a `u64` can count where the chunk itself does not.
proof fn lemma_chunk_region_small(chunk_subset: ArraySubset, dims: Seq<u64>)
    requires
        fits(chunk_subset.origin(), chunk_subset.extent(), ints(dims)),
        product(ints(dims)) <= u64::MAX,
    ensures
        chunk_subset.count() <= u64::MAX,
{
    lemma_fits_product(chunk_subset.origin(), chunk_subset.extent(), ints(dims));
}

} // verus!
