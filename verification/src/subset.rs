//! `ArraySubset`: an axis-aligned region of an array, one half-open range
//! with unit step on every axis.

use vstd::prelude::*;
use std::ops::Range;
use crate::layout::{ints, product, element_count};
use crate::region::fits;

verus! {

/// A region given by its origin and its extent on every axis. A subset
/// without axes addresses the single element of a scalar.
#[derive(Debug)]
pub struct ArraySubset {
    start: Vec<u64>,
    shape: Vec<u64>,
}

/// Where a range begins.
pub open spec fn range_start(r: Range<u64>) -> int {
    r.start as int
}

/// How many positions a range holds; none where it ends before it begins.
pub open spec fn range_extent(r: Range<u64>) -> int {
    if r.end >= r.start {
        r.end - r.start
    } else {
        0
    }
}

impl ArraySubset {
    #[verifier::type_invariant]
    spec fn valid(self) -> bool {
        &&& self.start@.len() == self.shape@.len()
        &&& forall|i: int|
            0 <= i < self.start@.len() ==> #[trigger] self.start@[i] + self.shape@[i] <= u64::MAX
    }

    /// The first position of the region on every axis.
    pub closed spec fn origin(&self) -> Seq<int> {
        ints(self.start@)
    }

    /// The number of positions of the region on every axis.
    pub closed spec fn extent(&self) -> Seq<int> {
        ints(self.shape@)
    }

    /// The number of elements of the region.
    pub open spec fn count(&self) -> int {
        product(self.extent())
    }

    /// The subset with one axis for each range. A range that ends before it
    /// begins selects nothing.
    pub fn new_with_ranges(ranges: &[Range<u64>]) -> (subset: ArraySubset)
        ensures
            subset.origin() =~= Seq::new(ranges@.len(), |i: int| range_start(ranges@[i])),
            subset.extent() =~= Seq::new(ranges@.len(), |i: int| range_extent(ranges@[i])),
    {
        let mut start: Vec<u64> = Vec::new();
        let mut shape: Vec<u64> = Vec::new();
        let mut i: usize = 0;
        while i < ranges.len()
            invariant
                i <= ranges.len(),
                start@.len() == i,
                shape@.len() == i,
                forall|j: int| 0 <= j < i ==> #[trigger] start@[j] == range_start(ranges@[j]),
                forall|j: int| 0 <= j < i ==> #[trigger] shape@[j] == range_extent(ranges@[j]),
            decreases ranges.len() - i,
        {
            let lo: u64 = ranges[i].start;
            let hi: u64 = ranges[i].end;
            start.push(lo);
            shape.push(if hi >= lo { hi - lo } else { 0 });
            i += 1;
        }
        proof {
            assert forall|j: int| 0 <= j < start@.len() implies #[trigger] start@[j] + shape@[j]
                <= u64::MAX by {
                assert(start@[j] == range_start(ranges@[j]));
                assert(shape@[j] == range_extent(ranges@[j]));
            }
        }
        ArraySubset { start, shape }
    }

    /// The number of axes.
    pub fn dimensionality(&self) -> (n: usize)
        ensures
            n == self.origin().len(),
            n == self.extent().len(),
    {
        proof {
            use_type_invariant(self);
        }
        self.start.len()
    }

    /// The first position of the region on every axis.
    pub fn start(&self) -> (start: &Vec<u64>)
        ensures
            ints(start@) == self.origin(),
            start@.len() == self.extent().len(),
            forall|i: int|
                0 <= i < start@.len() ==> #[trigger] start@[i] + self.extent()[i] <= u64::MAX,
    {
        proof {
            use_type_invariant(self);
            assert forall|i: int| 0 <= i < self.start@.len() implies #[trigger] self.start@[i]
                + self.extent()[i] <= u64::MAX by {
                assert(self.start@[i] + self.shape@[i] <= u64::MAX);
            }
        }
        &self.start
    }

    /// The number of positions of the region on every axis.
    pub fn shape(&self) -> (shape: &Vec<u64>)
        ensures
            ints(shape@) == self.extent(),
            shape@.len() == self.origin().len(),
    {
        proof {
            use_type_invariant(self);
        }
        &self.shape
    }

    /// The number of elements of the region, where that number is a `u64`.
    pub fn num_elements(&self) -> (count: Option<u64>)
        ensures
            match count {
                Some(n) => n == self.count(),
                None => self.count() > u64::MAX,
            },
    {
        element_count(self.shape.as_slice())
    }

    /// Whether the region lies within an array of the given shape, with one
    /// axis of the region for each axis of the array.
    pub fn inbounds(&self, array_shape: &[u64]) -> (within: bool)
        ensures
            within == fits(self.origin(), self.extent(), ints(array_shape@)),
    {
        proof {
            use_type_invariant(self);
        }
        if self.start.len() != array_shape.len() {
            return false;
        }
        let mut i: usize = 0;
        while i < array_shape.len()
            invariant
                i <= array_shape.len(),
                self.start@.len() == array_shape@.len(),
                self.shape@.len() == array_shape@.len(),
                forall|j: int|
                    0 <= j < self.start@.len() ==> #[trigger] self.start@[j] + self.shape@[j]
                        <= u64::MAX,
                forall|j: int|
                    0 <= j < i ==> #[trigger] self.origin()[j] + self.extent()[j] <= ints(
                        array_shape@,
                    )[j],
            decreases array_shape.len() - i,
        {
            assert(self.start@[i as int] + self.shape@[i as int] <= u64::MAX);
            if self.start[i] + self.shape[i] > array_shape[i] {
                assert(!(self.origin()[i as int] + self.extent()[i as int] <= ints(
                    array_shape@,
                )[i as int]));
                return false;
            }
            i += 1;
        }
        true
    }

    /// Whether the region is the whole of an array of the given shape.
    pub fn is_whole(&self, array_shape: &[u64]) -> (whole: bool)
        ensures
            whole == (self.origin() =~= Seq::new(array_shape@.len(), |i: int| 0int)
                && self.extent() =~= ints(array_shape@)),
    {
        proof {
            use_type_invariant(self);
        }
        if self.start.len() != array_shape.len() {
            return false;
        }
        let mut i: usize = 0;
        while i < array_shape.len()
            invariant
                i <= array_shape.len(),
                self.start@.len() == array_shape@.len(),
                self.shape@.len() == array_shape@.len(),
                forall|j: int| 0 <= j < i ==> #[trigger] self.origin()[j] == 0,
                forall|j: int| 0 <= j < i ==> #[trigger] self.extent()[j] == ints(array_shape@)[j],
            decreases array_shape.len() - i,
        {
            if self.start[i] != 0 || self.shape[i] != array_shape[i] {
                assert(self.origin()[i as int] != 0 || self.extent()[i as int] != ints(
                    array_shape@,
                )[i as int]);
                return false;
            }
            i += 1;
        }
        true
    }
}

impl Clone for ArraySubset {
    fn clone(&self) -> (copy: ArraySubset)
        ensures
            copy.origin() == self.origin(),
            copy.extent() == self.extent(),
    {
        proof {
            use_type_invariant(self);
        }
        let start = self.start.clone();
        let shape = self.shape.clone();
        assert(start@ =~= self.start@);
        assert(shape@ =~= self.shape@);
        ArraySubset { start, shape }
    }
}

} // verus!
