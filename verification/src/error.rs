//! The failures that the pipeline reports.

use vstd::prelude::*;

verus! {

/// Why a request was refused or a chunk could not be processed.
#[derive(Clone, Copy, Debug, PartialEq, Eq, Structural)]
pub enum PipelineError {
    /// An index or a slice bound lies before the start of its axis, or an
    /// index lies at or beyond its end.
    OutOfBounds,
    /// A slice has a step other than one, or the region selected in the
    /// buffer and the region selected in the chunk cannot be paired.
    UnsupportedSelection,
    /// A chunk has an axis of length zero, or more bytes than a buffer can
    /// hold.
    InvalidChunkShape,
    /// The data type has no fixed width that this pipeline knows.
    UnsupportedDataType,
    /// The fill value is not exactly one element wide.
    InvalidFillValue,
    /// The address asks for another kind of backend than the one in use.
    BackendMismatch,
    /// The address names no backend that this pipeline knows.
    UnsupportedBackend,
    /// The address holds no valid key below its backend's root.
    InvalidStoreKey,
    /// The buffer is not a dense block of exactly the bytes of its shape.
    NonContiguousBuffer,
    /// The description of the codec chain is malformed, or names a codec
    /// that this pipeline does not work with.
    InvalidCodecMetadata,
    /// The codec chain could not decode the bytes stored for a chunk.
    DecodeFailure,
    /// The backend could not be read.
    StoreReadFailure,
    /// The codec chain could not encode a chunk, or the backend could not be
    /// written.
    StoreWriteFailure,
}

impl PipelineError {
    /// A short sentence for the failure, for messages.
    pub fn message(&self) -> (text: &'static str)
        ensures
            text@ == self.message_text(),
    {
        match self {
            PipelineError::OutOfBounds => "selection out of bounds",
            PipelineError::UnsupportedSelection => "unsupported selection",
            PipelineError::InvalidChunkShape => "invalid chunk shape",
            PipelineError::UnsupportedDataType => "unsupported data type",
            PipelineError::InvalidFillValue => "invalid fill value",
            PipelineError::BackendMismatch => "the store type changed",
            PipelineError::UnsupportedBackend => "unsupported store",
            PipelineError::InvalidStoreKey => "invalid store key",
            PipelineError::NonContiguousBuffer => "array must be a C contiguous array",
            PipelineError::InvalidCodecMetadata => "invalid codec metadata",
            PipelineError::DecodeFailure => "chunk could not be decoded",
            PipelineError::StoreReadFailure => "store read failure",
            PipelineError::StoreWriteFailure => "chunk could not be written",
        }
    }

    /// The sentence that `message` returns.
    pub open spec fn message_text(&self) -> Seq<char> {
        match self {
            PipelineError::OutOfBounds => "selection out of bounds"@,
            PipelineError::UnsupportedSelection => "unsupported selection"@,
            PipelineError::InvalidChunkShape => "invalid chunk shape"@,
            PipelineError::UnsupportedDataType => "unsupported data type"@,
            PipelineError::InvalidFillValue => "invalid fill value"@,
            PipelineError::BackendMismatch => "the store type changed"@,
            PipelineError::UnsupportedBackend => "unsupported store"@,
            PipelineError::InvalidStoreKey => "invalid store key"@,
            PipelineError::NonContiguousBuffer => "array must be a C contiguous array"@,
            PipelineError::InvalidCodecMetadata => "invalid codec metadata"@,
            PipelineError::DecodeFailure => "chunk could not be decoded"@,
            PipelineError::StoreReadFailure => "store read failure"@,
            PipelineError::StoreWriteFailure => "chunk could not be written"@,
        }
    }
}

} // verus!
