//! What a chunk is made of: its shape, the data type of its elements and the
//! fill value that stands for an element never written.

use vstd::prelude::*;
use crate::codec::{data_type_size, fixed_size};
use crate::error::PipelineError;
use crate::layout::{element_count, has_empty_axis, ints, positive, product};

verus! {

/// The shape, data type and fill value of a chunk. No axis is empty, the
/// fill value is one element wide, and the bytes of the chunk can be
/// addressed.
#[derive(Debug)]
pub struct ChunkRepresentation {
    shape: Vec<u64>,
    data_type: String,
    fill_value: Vec<u8>,
}

/// Why no chunk can have this shape and fill value with elements of the
/// given width; `None` where one can. A data type without a fixed width is
/// looked at first, then the shape, then the fill value, and last whether
/// a buffer can hold the bytes of the chunk: no more than `isize::MAX`.
pub open spec fn layout_error(shape: Seq<u64>, size: Option<usize>, fill_value: Seq<u8>) -> Option<
    PipelineError,
> {
    match size {
        None => Some(PipelineError::UnsupportedDataType),
        Some(width) => if !positive(ints(shape)) {
            Some(PipelineError::InvalidChunkShape)
        } else if fill_value.len() != width {
            Some(PipelineError::InvalidFillValue)
        } else if product(ints(shape)) > isize::MAX || product(ints(shape)) * width
            > isize::MAX {
            Some(PipelineError::InvalidChunkShape)
        } else {
            None
        },
    }
}

/// Why no chunk can have this shape, data type and fill value; `None` where
/// one can.
pub open spec fn representation_error(
    shape: Seq<u64>,
    data_type: Seq<char>,
    fill_value: Seq<u8>,
) -> Option<PipelineError> {
    layout_error(shape, data_type_size(data_type), fill_value)
}

impl ChunkRepresentation {
    #[verifier::type_invariant]
    spec fn valid(self) -> bool {
        layout_error(self.shape@, Some(self.fill_value@.len() as usize), self.fill_value@) is None
    }

    /// The length of every axis.
    pub closed spec fn dims(&self) -> Seq<u64> {
        self.shape@
    }

    /// The name of the data type.
    pub closed spec fn dtype(&self) -> Seq<char> {
        self.data_type@
    }

    /// The bytes of the fill value.
    pub closed spec fn fill(&self) -> Seq<u8> {
        self.fill_value@
    }

    /// What holds of every representation: no axis is empty, and a buffer
    /// can hold the bytes of the chunk, whose elements are as wide as the
    /// fill value.
    pub open spec fn well_formed(&self) -> bool {
        layout_error(self.dims(), Some(self.fill().len() as usize), self.fill()) is None
    }

    /// The width of an element in bytes.
    pub open spec fn width(&self) -> int {
        self.fill().len() as int
    }

    /// The number of elements of the chunk.
    pub open spec fn count(&self) -> int {
        product(ints(self.dims()))
    }

    /// The representation of a chunk of the given shape, data type and fill
    /// value.
    pub fn new(shape: Vec<u64>, data_type: &str, fill_value: Vec<u8>) -> (result: Result<
        ChunkRepresentation,
        PipelineError,
    >)
        ensures
            match result {
                Ok(r) => representation_error(shape@, data_type@, fill_value@) is None && r.dims()
                    == shape@ && r.dtype() == data_type@ && r.fill() == fill_value@,
                Err(e) => representation_error(shape@, data_type@, fill_value@) == Some(e),
            },
    {
        let size = fixed_size(data_type);
        ChunkRepresentation::with_size(shape, data_type, size, fill_value)
    }

    /// The representation of a chunk of the given shape and fill value whose
    /// data type has elements `size` bytes wide, or no fixed width where
    /// `size` is `None`.
    pub fn with_size(
        shape: Vec<u64>,
        data_type: &str,
        size: Option<usize>,
        fill_value: Vec<u8>,
    ) -> (result: Result<ChunkRepresentation, PipelineError>)
        ensures
            match result {
                Ok(r) => layout_error(shape@, size, fill_value@) is None && r.dims() == shape@
                    && r.dtype() == data_type@ && r.fill() == fill_value@,
                Err(e) => layout_error(shape@, size, fill_value@) == Some(e),
            },
    {
        let width = match size {
            Some(w) => w,
            None => {
                return Err(PipelineError::UnsupportedDataType);
            },
        };
        if has_empty_axis(shape.as_slice()) {
            return Err(PipelineError::InvalidChunkShape);
        }
        if fill_value.len() != width {
            return Err(PipelineError::InvalidFillValue);
        }
        let count = match element_count(shape.as_slice()) {
            Some(n) => n,
            None => {
                return Err(PipelineError::InvalidChunkShape);
            },
        };
        if count > isize::MAX as u64 {
            return Err(PipelineError::InvalidChunkShape);
        }
        match (count as usize).checked_mul(width) {
            Some(bytes) => {
                if bytes > isize::MAX as usize {
                    return Err(PipelineError::InvalidChunkShape);
                }
            },
            None => {
                return Err(PipelineError::InvalidChunkShape);
            },
        }
        Ok(ChunkRepresentation { shape, data_type: data_type.to_owned(), fill_value })
    }

    /// The length of every axis; none is zero.
    pub fn shape(&self) -> (shape: &Vec<u64>)
        ensures
            shape@ == self.dims(),
            self.well_formed(),
            positive(ints(shape@)),
            0 < self.count() <= isize::MAX,
            self.count() * self.width() <= isize::MAX,
    {
        proof {
            use_type_invariant(self);
            crate::layout::lemma_product_positive(ints(self.shape@));
        }
        &self.shape
    }

    /// The name of the data type.
    pub fn data_type(&self) -> (name: &str)
        ensures
            name@ == self.dtype(),
    {
        self.data_type.as_str()
    }

    /// The bytes of the fill value.
    pub fn fill_value(&self) -> (fill: &Vec<u8>)
        ensures
            fill@ == self.fill(),
    {
        &self.fill_value
    }

    /// The width of an element in bytes.
    pub fn element_size(&self) -> (width: usize)
        ensures
            width == self.width(),
    {
        self.fill_value.len()
    }

    /// The number of elements of the chunk.
    pub fn num_elements(&self) -> (count: u64)
        ensures
            count == self.count(),
            0 < count <= isize::MAX,
            count * self.width() <= isize::MAX,
    {
        proof {
            use_type_invariant(self);
            crate::layout::lemma_product_positive(ints(self.shape@));
        }
        match element_count(self.shape.as_slice()) {
            Some(n) => n,
            None => {
                assert(false);
                0
            },
        }
    }
}

impl Clone for ChunkRepresentation {
    fn clone(&self) -> (copy: ChunkRepresentation)
        ensures
            copy.dims() == self.dims(),
            copy.dtype() == self.dtype(),
            copy.fill() == self.fill(),
    {
        proof {
            use_type_invariant(self);
        }
        let shape = self.shape.clone();
        let fill_value = self.fill_value.clone();
        let data_type = self.data_type.clone();
        assert(shape@ =~= self.shape@);
        assert(fill_value@ =~= self.fill_value@);
        ChunkRepresentation { shape, data_type, fill_value }
    }
}

} // verus!
