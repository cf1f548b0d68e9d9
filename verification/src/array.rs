//! One array addressed by selections, and the dense block of bytes that a
//! selection reads out of it.

use vstd::prelude::*;
use std::ops::Range;
use crate::buffer::{extract, extracted, holds};
use crate::error::PipelineError;
use crate::layout::{ints, product};
use crate::pipeline::CodecPipelineImpl;
use crate::region::fits;
use crate::selection::{covered, fill_ranges, filled, lifted, lows, normalize_slice, pairs_of,
    rewrite, rewritten, same_range, slice_range, spans, Selection};
use crate::subset::ArraySubset;

verus! {

/// An array, by the length of each of its axes.
#[derive(Debug)]
pub struct ZarrsPythonArray {
    /// The length of every axis.
    pub shape: Vec<u64>,
}

/// The bytes that a selection read out of an array, and the shape of the
/// block that they form.
#[derive(Debug)]
pub struct PyZarrArr {
    arr: Vec<u8>,
    shape: Vec<i64>,
}

/// A shape of signed machine integers as mathematical ones.
pub open spec fn ints_of(values: Seq<i64>) -> Seq<int> {
    Seq::new(values.len(), |i: int| values[i] as int)
}

/// Some axis of the region is longer than an `i64` can say.
pub open spec fn too_long(ranges: Seq<(int, int)>) -> bool {
    exists|i: int| 0 <= i < ranges.len() && #[trigger] spans(ranges)[i] > i64::MAX
}

impl ZarrsPythonArray {
    /// The position that `ind` names on the given axis: a negative index
    /// counts from the end of the axis. An index that reaches before the
    /// start of the axis, or an axis that the array does not have, is out of
    /// bounds.
    pub fn maybe_convert_u64(&self, ind: i64, axis: usize) -> (result: Result<u64, PipelineError>)
        ensures
            match result {
                Ok(p) => axis < self.shape@.len() && rewritten(
                    self.shape@[axis as int] as int,
                    ind as int,
                ) == Some(p as int),
                Err(e) => e == PipelineError::OutOfBounds && (axis >= self.shape@.len()
                    || rewritten(self.shape@[axis as int] as int, ind as int) is None),
            },
    {
        if axis >= self.shape.len() {
            return Err(PipelineError::OutOfBounds);
        }
        match rewrite(self.shape[axis], ind) {
            Some(p) => Ok(p),
            None => Err(PipelineError::OutOfBounds),
        }
    }

    /// The range that a slice from `start` to `stop` by `step` selects on the
    /// given axis. A step other than one is not supported; an axis that the
    /// array does not have is out of bounds.
    pub fn bound_slice(
        &self,
        start: Option<i64>,
        stop: Option<i64>,
        step: Option<i64>,
        axis: usize,
    ) -> (result: Result<Range<u64>, PipelineError>)
        ensures
            axis < self.shape@.len() ==> same_range(
                result,
                slice_range(
                    self.shape@[axis as int] as int,
                    lifted(start),
                    lifted(stop),
                    lifted(step),
                ),
            ),
            axis >= self.shape@.len() ==> result == Err::<Range<u64>, PipelineError>(
                PipelineError::OutOfBounds,
            ),
    {
        if axis >= self.shape.len() {
            return Err(PipelineError::OutOfBounds);
        }
        normalize_slice(self.shape[axis], start, stop, step)
    }

    /// One range for every axis of the array: the range given for the axis,
    /// or the full range of an axis for which none is given.
    pub fn fill_from_slices(&self, slices: Vec<Range<u64>>) -> (full: Vec<Range<u64>>)
        ensures
            pairs_of(full@) == filled(pairs_of(slices@), self.shape@),
    {
        fill_ranges(slices.as_slice(), self.shape.as_slice())
    }

    /// The region that a selection addresses in the array: the range of each
    /// selection on its axis, and the full range of every axis beyond them.
    pub fn subset(&self, selection: &[Selection]) -> (result: Result<ArraySubset, PipelineError>)
        ensures
            match result {
                Ok(subset) => {
                    &&& covered(selection@, self.shape@) is Ok
                    &&& subset.origin() == lows(covered(selection@, self.shape@)->Ok_0)
                    &&& subset.extent() == spans(covered(selection@, self.shape@)->Ok_0)
                    &&& fits(subset.origin(), subset.extent(), ints(self.shape@))
                },
                Err(e) => covered(selection@, self.shape@) == Err::<
                    Seq<(int, int)>,
                    PipelineError,
                >(e),
            },
    {
        CodecPipelineImpl::selection_to_array_subset(selection, self.shape.as_slice())
    }

    /// Reads what a selection addresses out of `decoded`, the bytes of the
    /// array, whose elements are `width` bytes wide. The selection is looked
    /// at first, then the size of `decoded`, and last whether the shape of
    /// the block can be said in `i64`.
    pub fn retrieve_chunk_subset(&self, selection: &[Selection], decoded: &[u8], width: usize) -> (result:
        Result<PyZarrArr, PipelineError>)
        ensures
            match result {
                Ok(block) => {
                    &&& covered(selection@, self.shape@) is Ok
                    &&& decoded@.len() == product(ints(self.shape@)) * width
                    &&& !too_long(covered(selection@, self.shape@)->Ok_0)
                    &&& block.bytes() == extracted(
                        decoded@,
                        ints(self.shape@),
                        lows(covered(selection@, self.shape@)->Ok_0),
                        spans(covered(selection@, self.shape@)->Ok_0),
                        width as int,
                    )
                    &&& ints_of(block.dims()) == spans(covered(selection@, self.shape@)->Ok_0)
                },
                Err(e) => match covered(selection@, self.shape@) {
                    Err(f) => e == f,
                    Ok(ranges) => if decoded@.len() != product(ints(self.shape@)) * width {
                        e == PipelineError::NonContiguousBuffer
                    } else {
                        e == PipelineError::OutOfBounds && too_long(ranges)
                    },
                },
            },
    {
        let subset = match self.subset(selection) {
            Ok(subset) => subset,
            Err(e) => {
                return Err(e);
            },
        };
        let ghost model = covered(selection@, self.shape@)->Ok_0;
        if !holds(decoded.len(), self.shape.as_slice(), width) {
            return Err(PipelineError::NonContiguousBuffer);
        }
        let extent = subset.shape();
        let mut shape: Vec<i64> = Vec::new();
        let mut i: usize = 0;
        while i < extent.len()
            invariant
                i <= extent.len(),
                shape@.len() == i,
                covered(selection@, self.shape@) == Ok::<Seq<(int, int)>, PipelineError>(model),
                decoded@.len() == product(ints(self.shape@)) * width,
                ints(extent@) == spans(model),
                ints(extent@) == subset.extent(),
                subset.origin() == lows(model),
                fits(subset.origin(), subset.extent(), ints(self.shape@)),
                forall|j: int| 0 <= j < i ==> #[trigger] shape@[j] as int == extent@[j] as int,
                forall|j: int| 0 <= j < i ==> #[trigger] spans(model)[j] <= i64::MAX,
            decreases extent.len() - i,
        {
            proof {
                assert(ints(extent@).len() == extent@.len());
                assert(ints(extent@)[i as int] == extent@[i as int]);
            }
            if extent[i] > i64::MAX as u64 {
                proof {
                    assert(spans(model).len() == model.len());
                    assert(spans(model)[i as int] > i64::MAX);
                    assert(too_long(model));
                }
                return Err(PipelineError::OutOfBounds);
            }
            shape.push(extent[i] as i64);
            i += 1;
        }
        let arr = extract(decoded, self.shape.as_slice(), &subset, width);
        proof {
            assert(ints(extent@).len() == extent@.len());
            assert(ints_of(shape@) =~= spans(model));
            assert(spans(model).len() == model.len());
            assert(!too_long(model));
        }
        Ok(PyZarrArr { arr, shape })
    }
}

impl PyZarrArr {
    /// The bytes of the block.
    pub closed spec fn bytes(&self) -> Seq<u8> {
        self.arr@
    }

    /// The length of every axis of the block.
    pub closed spec fn dims(&self) -> Seq<i64> {
        self.shape@
    }

    /// The bytes of the block, in row-major order.
    pub fn data(&self) -> (data: &Vec<u8>)
        ensures
            data@ == self.bytes(),
    {
        &self.arr
    }

    /// The length of every axis of the block.
    pub fn shape(&self) -> (shape: &Vec<i64>)
        ensures
            shape@ == self.dims(),
    {
        &self.shape
    }

    /// Where the block begins in its bytes: at the first.
    pub fn byte_offset(&self) -> (offset: u64)
        ensures
            offset == 0,
    {
        0
    }
}

} // verus!
