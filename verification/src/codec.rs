//! The codec chain of the `zarrs` crate, and what this library relies on
//! about it. Nothing in this file is proved: every function here hands its
//! arguments to `zarrs` and states, without proof, what comes back.

use vstd::prelude::*;
use crate::chain::{levels_in_range, models_of, ChainModel, CodecText, CodecTextModel, Endian,
    Packer};
use crate::layout::{ints, positive, product};
use std::borrow::Cow;
use std::num::NonZeroU64;
use zarrs::array::codec::ArrayToBytesCodecTraits;
use zarrs::array::codec::CodecOptions;
use zarrs::array::codec::CodecOptionsBuilder;
use zarrs::array::codec::BytesCodec;
use zarrs::array::codec::BytesToBytesCodecTraits;
use zarrs::array::codec::Crc32cCodec;
use zarrs::array::codec::GzipCodec;
use zarrs::array::Endianness;
use std::sync::Arc;
use zarrs::array::ArrayBytes;
use zarrs::array::ChunkRepresentation;
use zarrs::array::CodecChain;
use zarrs::array::DataType;
use zarrs::array::FillValue;
use zarrs::metadata::v3::array::data_type::DataTypeMetadataV3;
use zarrs::metadata::v3::MetadataV3;
use zarrs::storage::StoreKey;

verus! {

/// `zarrs::array::CodecChain`: the codecs through which a chunk is encoded,
/// in the order of encoding. They are fixed when the chain is built.
#[verifier::external_type_specification]
#[verifier::external_body]
pub struct ExCodecChain(CodecChain);

/// The codecs that a chain holds, where it holds one `bytes` codec and,
/// after it, nothing but `gzip` and `crc32c` codecs; `None` where it holds
/// anything else.
pub uninterp spec fn chain_codecs(chain: CodecChain) -> Option<ChainModel>;

/// The entries of the JSON list of codec metadata that a text holds, in
/// their order; `None` where the text is no such list.
pub uninterp spec fn parsed_codecs(text: Seq<char>) -> Option<Seq<CodecTextModel>>;

/// The width in bytes of the elements of the data type of the given name;
/// `None` where `zarrs` knows no such type or its elements vary in length.
pub uninterp spec fn data_type_size(name: Seq<char>) -> Option<usize>;

/// What decoding a stored chunk through the codecs gives; `None` where the
/// chain fails.
pub uninterp spec fn chain_decoded(
    codecs: ChainModel,
    validate_checksums: bool,
    store_empty_chunks: bool,
    concurrent_target: usize,
    encoded: Seq<u8>,
    shape: Seq<u64>,
    data_type: Seq<char>,
    fill_value: Seq<u8>,
) -> Option<Seq<u8>>;

/// What encoding the bytes of a chunk through the codecs gives; `None` where
/// the chain fails.
pub uninterp spec fn chain_encoded(
    codecs: ChainModel,
    validate_checksums: bool,
    store_empty_chunks: bool,
    concurrent_target: usize,
    decoded: Seq<u8>,
    shape: Seq<u64>,
    data_type: Seq<char>,
    fill_value: Seq<u8>,
) -> Option<Seq<u8>>;

/// Whether executable entries are the entries of the model, or both are
/// missing.
pub open spec fn same_entries(
    entries: Option<Vec<CodecText>>,
    model: Option<Seq<CodecTextModel>>,
) -> bool {
    match entries {
        Some(e) => model == Some(models_of(e@)),
        None => model is None,
    }
}

/// A chain of one `bytes` codec and no more than 31 `gzip` and `crc32c`
/// codecs after it. Each of these codecs refuses stored bytes that it cannot
/// decode, whatever they are.
pub open spec fn supported(chain: CodecChain) -> bool {
    chain_codecs(chain) is Some && chain_codecs(chain)->Some_0.packers.len() <= 31
}

/// Whether a key is valid in a store: it is not empty, neither begins nor
/// ends with `/`, and holds no `//`.
pub open spec fn key_is_valid(key: Seq<char>) -> bool {
    &&& key.len() > 0
    &&& key[0] != '/'
    &&& key[key.len() - 1] != '/'
    &&& forall|i: int| 0 <= i < key.len() - 1 ==> !(#[trigger] key[i] == '/' && key[i + 1] == '/')
}

/// Parses `text` as a JSON list of codec metadata with
/// `serde_json::from_str` and hands out, for each entry, its name, the
/// string under `endian` and the non-negative integer under `level` of its
/// configuration, and the number of fields of the configuration. Claimed:
/// the entries depend on the text alone.
#[verifier::external_body]
pub(crate) fn parse_codecs(text: &str) -> (entries: Option<Vec<CodecText>>)
    ensures
        same_entries(entries, parsed_codecs(text@)),
{
    let list: Vec<MetadataV3> = serde_json::from_str(text).ok()?;
    let field = |m: &MetadataV3, key: &str| m.configuration().and_then(|c| c.get(key).cloned());
    Some(list.iter().map(|m| CodecText {
        name: m.name().to_string(),
        endian: field(m, "endian").and_then(|v| v.as_str().map(String::from)),
        level: field(m, "level").and_then(|v| v.as_u64()),
        fields: m.configuration().map_or(0, |c| c.len()),
    }).collect())
}

/// Builds a chain with `CodecChain::new` from a `bytes` codec of the given
/// byte order, made with `BytesCodec::new`, and the codecs after it, made
/// with `GzipCodec::new` and `Crc32cCodec::new`. Claimed: the chain holds
/// these codecs. No compression level is above 9, so every codec is made.
#[verifier::external_body]
pub(crate) fn chain_of(endian: Option<Endian>, packers: &Vec<Packer>) -> (chain: CodecChain)
    requires
        levels_in_range(packers@),
    ensures
        chain_codecs(chain) == Some(ChainModel { endian, packers: packers@ }),
{
    let endian = endian.map(|e| match e {
        Endian::Little => Endianness::Little,
        Endian::Big => Endianness::Big,
    });
    let mut after: Vec<Arc<dyn BytesToBytesCodecTraits>> = Vec::new();
    for packer in packers {
        match packer {
            Packer::Gzip(level) => after.extend(GzipCodec::new(*level).ok().map(|c| Arc::new(c) as _)),
            Packer::Crc32c => after.push(Arc::new(Crc32cCodec::new())),
        }
    }
    CodecChain::new(Vec::new(), Arc::new(BytesCodec::new(endian)), after)
}

/// Reads the options that `CodecOptions::default` takes from the
/// configuration of `zarrs`: whether checksums are validated, whether empty
/// chunks are stored, and the concurrency that codecs aim at. Nothing is
/// claimed of them.
#[verifier::external_body]
pub(crate) fn default_options() -> (options: (bool, bool, usize)) {
    let options = CodecOptions::default();
    (options.validate_checksums(), options.store_empty_chunks(), options.concurrent_target())
}

/// Looks the data type up by name with `DataType::from_metadata` and asks
/// `fixed_size` for the width of its elements. Claimed: the result depends on
/// the name alone.
#[verifier::external_body]
pub(crate) fn fixed_size(name: &str) -> (size: Option<usize>)
    ensures
        size == data_type_size(name@),
{
    let metadata = DataTypeMetadataV3::from_metadata(&MetadataV3::new(name));
    DataType::from_metadata(&metadata).ok()?.fixed_size()
}

/// Asks `StoreKey::validate` whether `key` is a valid key. Claimed: it is
/// valid exactly where it is not empty, neither begins nor ends with `/`, and
/// holds no `//`.
#[verifier::external_body]
pub(crate) fn valid_key(key: &str) -> (valid: bool)
    ensures
        valid == key_is_valid(key@),
{
    StoreKey::validate(key)
}

/// Decodes a stored chunk with `CodecChain::decode`, for a chunk of the
/// given shape, data type and fill value. Claimed: the result depends only on
/// the codecs of the chain, the options and the arguments. The chain holds
/// one `bytes` codec and no more than 31 `gzip` and `crc32c` codecs; the
/// shape has no empty axis and the chunk no more than `isize::MAX` bytes.
#[verifier::external_body]
pub(crate) fn chain_decode(
    chain: &CodecChain,
    options: (bool, bool, usize),
    encoded: &Vec<u8>,
    shape: &Vec<u64>,
    data_type: &str,
    fill_value: &Vec<u8>,
) -> (decoded: Option<Vec<u8>>)
    requires
        supported(*chain),
        positive(ints(shape@)),
        product(ints(shape@)) * fill_value@.len() <= isize::MAX,
        product(ints(shape@)) <= isize::MAX,
    ensures
        same_bytes(
            decoded,
            chain_decoded(
                chain_codecs(*chain)->Some_0,
                options.0,
                options.1,
                options.2,
                encoded@,
                shape@,
                data_type@,
                fill_value@,
            ),
        ),
{
    let metadata = DataTypeMetadataV3::from_metadata(&MetadataV3::new(data_type));
    let shape = shape.iter().map(|&d| NonZeroU64::new(d)).collect::<Option<Vec<_>>>()?;
    let fill = FillValue::new(fill_value.clone());
    let chunk = ChunkRepresentation::new(shape, DataType::from_metadata(&metadata).ok()?, fill).ok()?;
    let options = CodecOptionsBuilder::new().validate_checksums(options.0).store_empty_chunks(
        options.1,
    ).concurrent_target(options.2).build();
    let decoded = chain.decode(Cow::Borrowed(encoded.as_slice()), &chunk, &options).ok()?;
    decoded.into_fixed().ok().map(Cow::into_owned)
}

/// Encodes the bytes of a chunk with `CodecChain::encode`, for a chunk of the
/// given shape, data type and fill value. Claimed: the result depends only on
/// the codecs of the chain, the options and the arguments. The chain holds
/// one `bytes` codec and no more than 31 `gzip` and `crc32c` codecs; the
/// shape has no empty axis and the chunk no more than `isize::MAX` bytes.
#[verifier::external_body]
pub(crate) fn chain_encode(
    chain: &CodecChain,
    options: (bool, bool, usize),
    decoded: &Vec<u8>,
    shape: &Vec<u64>,
    data_type: &str,
    fill_value: &Vec<u8>,
) -> (encoded: Option<Vec<u8>>)
    requires
        supported(*chain),
        positive(ints(shape@)),
        product(ints(shape@)) * fill_value@.len() <= isize::MAX,
        product(ints(shape@)) <= isize::MAX,
    ensures
        same_bytes(
            encoded,
            chain_encoded(
                chain_codecs(*chain)->Some_0,
                options.0,
                options.1,
                options.2,
                decoded@,
                shape@,
                data_type@,
                fill_value@,
            ),
        ),
{
    let metadata = DataTypeMetadataV3::from_metadata(&MetadataV3::new(data_type));
    let shape = shape.iter().map(|&d| NonZeroU64::new(d)).collect::<Option<Vec<_>>>()?;
    let fill = FillValue::new(fill_value.clone());
    let chunk = ChunkRepresentation::new(shape, DataType::from_metadata(&metadata).ok()?, fill).ok()?;
    let options = CodecOptionsBuilder::new().validate_checksums(options.0).store_empty_chunks(
        options.1,
    ).concurrent_target(options.2).build();
    let bytes = ArrayBytes::new_flen(Cow::Borrowed(decoded.as_slice()));
    chain.encode(bytes, &chunk, &options).ok().map(Cow::into_owned)
}

/// Whether executable bytes are the bytes of the model, or both are missing.
pub open spec fn same_bytes(bytes: Option<Vec<u8>>, model: Option<Seq<u8>>) -> bool {
    match bytes {
        Some(b) => model == Some(b@),
        None => model is None,
    }
}

} // verus!
