//! A chunked-array codec pipeline: regions of a dense array are moved between
//! a contiguous buffer and a store of encoded chunks.

pub mod error;
pub mod selection;
pub mod layout;
pub mod region;
pub mod subset;
pub mod buffer;
pub mod chain;
pub mod codec;
pub mod store;
pub mod chunk;
pub mod pipeline;
pub mod retrieval;
pub mod storing;
pub mod array;
pub mod laws;

pub use array::{PyZarrArr, ZarrsPythonArray};
pub use chunk::ChunkRepresentation;
pub use error::PipelineError;
pub use pipeline::{ChunksItem, ChunksItemRaw, CodecPipelineImpl, StoreAction};
pub use selection::Selection;
pub use store::{CodecPipelineStore, FilesystemRoot};
pub use subset::ArraySubset;
