//! Per-axis selections and their canonical half-open ranges.
//!
//! A selection addresses one axis of extent `E` either by a single index or
//! by a slice. Both are brought to a range `[lo, hi)` with
//! `0 <= lo <= hi <= E`. Negative positions count from the end of the axis.

use vstd::prelude::*;
use vstd::arithmetic::div_mod::lemma_fundamental_div_mod_converse;
use std::ops::Range;
use crate::error::PipelineError;

verus! {

/// What a caller selects on one axis: a point or a range.
#[derive(Clone, Copy, Debug, PartialEq, Eq, Structural)]
pub enum Selection {
    /// A single position; a negative one counts from the end.
    Index(i64),
    /// The positions from `start` up to, not including, `stop`.
    Slice { start: Option<i64>, stop: Option<i64>, step: Option<i64> },
}

/// The position that `index` names on an axis of `extent` elements:
/// a negative index is taken from the end. `None` where that still lies
/// before the start of the axis.
pub open spec fn rewritten(extent: int, index: int) -> Option<int> {
    if index >= 0 {
        Some(index)
    } else if extent + index >= 0 {
        Some(extent + index)
    } else {
        None
    }
}

/// The range that a bare index selects: the one element it names.
pub open spec fn index_range(extent: int, index: int) -> Result<(int, int), PipelineError> {
    match rewritten(extent, index) {
        Some(p) => if p < extent {
            Ok((p, p + 1))
        } else {
            Err(PipelineError::OutOfBounds)
        },
        None => Err(PipelineError::OutOfBounds),
    }
}

/// A slice bound on an axis of `extent` elements: rewritten when negative,
/// and held back to the end of the axis when beyond it.
pub open spec fn slice_bound(extent: int, bound: int) -> Option<int> {
    match rewritten(extent, bound) {
        Some(p) => Some(if p < extent { p } else { extent }),
        None => None,
    }
}

/// The range that a slice selects. A missing `start` is 0 and a missing
/// `stop` is the extent; a `stop` before `start` selects nothing.
pub open spec fn slice_range(
    extent: int,
    start: Option<int>,
    stop: Option<int>,
    step: Option<int>,
) -> Result<(int, int), PipelineError> {
    if step != None::<int> && step != Some(1int) {
        Err(PipelineError::UnsupportedSelection)
    } else {
        let lo = match start {
            Some(s) => slice_bound(extent, s),
            None => Some(0int),
        };
        let hi = match stop {
            Some(s) => slice_bound(extent, s),
            None => Some(extent),
        };
        match (lo, hi) {
            (Some(lo), Some(hi)) => Ok((lo, if hi < lo { lo } else { hi })),
            _ => Err(PipelineError::OutOfBounds),
        }
    }
}

/// On an axis of `extent` elements an index from `-extent` up to, not
/// including, `extent` selects the one element at `index` modulo `extent`;
/// an index below `-extent` is out of bounds.
pub proof fn law_index_wraps(extent: int, index: int)
    requires
        0 <= extent,
    ensures
        -extent <= index < extent ==> index_range(extent, index) == Ok::<
            (int, int),
            PipelineError,
        >((index % extent, index % extent + 1)),
        index < -extent ==> index_range(extent, index) == Err::<(int, int), PipelineError>(
            PipelineError::OutOfBounds,
        ),
{
    if -extent <= index < extent {
        if index >= 0 {
            lemma_fundamental_div_mod_converse(index, extent, 0, index);
        } else {
            lemma_fundamental_div_mod_converse(index, extent, -1, index + extent);
        }
    }
}

/// An optional machine integer as an optional mathematical one.
pub open spec fn lifted(v: Option<i64>) -> Option<int> {
    match v {
        Some(x) => Some(x as int),
        None => None,
    }
}

impl Selection {
    /// The canonical range of this selection on an axis of `extent` elements.
    pub open spec fn range(&self, extent: int) -> Result<(int, int), PipelineError> {
        match *self {
            Selection::Index(i) => index_range(extent, i as int),
            Selection::Slice { start, stop, step } => slice_range(
                extent,
                lifted(start),
                lifted(stop),
                lifted(step),
            ),
        }
    }

    /// Brings the selection to its canonical range on an axis of `extent`
    /// elements.
    pub fn normalize(&self, extent: u64) -> (result: Result<Range<u64>, PipelineError>)
        ensures
            same_range(result, self.range(extent as int)),
            result is Ok ==> result->Ok_0.start <= result->Ok_0.end <= extent,
    {
        match *self {
            Selection::Index(i) => normalize_index(extent, i),
            Selection::Slice { start, stop, step } => normalize_slice(extent, start, stop, step),
        }
    }
}

/// Whether an executable result states the range that the model gives.
pub open spec fn same_range(
    result: Result<Range<u64>, PipelineError>,
    model: Result<(int, int), PipelineError>,
) -> bool {
    match result {
        Ok(r) => model == Ok::<(int, int), PipelineError>((r.start as int, r.end as int)),
        Err(e) => model == Err::<(int, int), PipelineError>(e),
    }
}

/// The position of `index` on an axis of `extent` elements, counted from the
/// start; `None` where a negative index reaches before the start.
pub fn rewrite(extent: u64, index: i64) -> (position: Option<u64>)
    ensures
        match position {
            Some(p) => rewritten(extent as int, index as int) == Some(p as int),
            None => rewritten(extent as int, index as int) == None::<int>,
        },
{
    if index >= 0 {
        Some(index as u64)
    } else {
        let short: i64 = -(index + 1);
        let back: u64 = short as u64 + 1;
        if back <= extent {
            Some(extent - back)
        } else {
            None
        }
    }
}

/// The range `[i, i + 1)` of a bare index, after rewriting a negative one.
pub fn normalize_index(extent: u64, index: i64) -> (result: Result<Range<u64>, PipelineError>)
    ensures
        same_range(result, index_range(extent as int, index as int)),
        result is Ok ==> result->Ok_0.start < result->Ok_0.end <= extent,
{
    match rewrite(extent, index) {
        Some(p) => {
            if p < extent {
                Ok(p..p + 1)
            } else {
                Err(PipelineError::OutOfBounds)
            }
        },
        None => Err(PipelineError::OutOfBounds),
    }
}

/// One bound of a slice, rewritten and held back to the axis.
fn bound(extent: u64, value: i64) -> (position: Option<u64>)
    ensures
        match position {
            Some(p) => slice_bound(extent as int, value as int) == Some(p as int),
            None => slice_bound(extent as int, value as int) == None::<int>,
        },
{
    match rewrite(extent, value) {
        Some(p) => Some(if p < extent { p } else { extent }),
        None => None,
    }
}

/// The range of a slice with unit step.
pub fn normalize_slice(
    extent: u64,
    start: Option<i64>,
    stop: Option<i64>,
    step: Option<i64>,
) -> (result: Result<Range<u64>, PipelineError>)
    ensures
        same_range(
            result,
            slice_range(extent as int, lifted(start), lifted(stop), lifted(step)),
        ),
        result is Ok ==> result->Ok_0.start <= result->Ok_0.end <= extent,
{
    match step {
        Some(s) => {
            if s != 1 {
                return Err(PipelineError::UnsupportedSelection);
            }
        },
        None => {},
    }
    let lo = match start {
        Some(s) => bound(extent, s),
        None => Some(0u64),
    };
    let hi = match stop {
        Some(s) => bound(extent, s),
        None => Some(extent),
    };
    match (lo, hi) {
        (Some(lo), Some(hi)) => Ok(lo..(if hi < lo { lo } else { hi })),
        _ => Err(PipelineError::OutOfBounds),
    }
}

/// The ranges that the first `n` selections give on the first `n` axes of
/// an array of the given shape, or the failure of the first that has none.
pub open spec fn selected(selection: Seq<Selection>, shape: Seq<u64>, n: int) -> Result<
    Seq<(int, int)>,
    PipelineError,
>
    decreases n,
{
    if n <= 0 {
        Ok(Seq::empty())
    } else {
        match selected(selection, shape, n - 1) {
            Err(e) => Err(e),
            Ok(ranges) => match selection[n - 1].range(shape[n - 1] as int) {
                Err(e) => Err(e),
                Ok(r) => Ok(ranges.push(r)),
            },
        }
    }
}

/// The number of axes that a list of selections covers of an array: one for
/// each pair of a selection and an axis.
pub open spec fn paired(selection: Seq<Selection>, shape: Seq<u64>) -> int {
    if selection.len() <= shape.len() {
        selection.len() as int
    } else {
        shape.len() as int
    }
}

/// The ranges given, and the full range of every axis of the array that
/// they do not cover. Ranges beyond the last axis are left out.
pub open spec fn filled(ranges: Seq<(int, int)>, shape: Seq<u64>) -> Seq<(int, int)> {
    Seq::new(
        shape.len(),
        |i: int|
            if i < ranges.len() {
                ranges[i]
            } else {
                (0int, shape[i] as int)
            },
    )
}

/// Ranges of machine integers as pairs of mathematical ones.
pub open spec fn pairs_of(ranges: Seq<Range<u64>>) -> Seq<(int, int)> {
    Seq::new(ranges.len(), |i: int| (ranges[i].start as int, ranges[i].end as int))
}

/// The region that a list of selections addresses in an array of the given
/// shape, one range for every axis of the array: the range of the selection
/// for the axis, and the full range of an axis for which there is none. The
/// first selection without a range fails the whole.
pub open spec fn covered(selection: Seq<Selection>, shape: Seq<u64>) -> Result<
    Seq<(int, int)>,
    PipelineError,
> {
    match selected(selection, shape, paired(selection, shape)) {
        Ok(ranges) => Ok(filled(ranges, shape)),
        Err(e) => Err(e),
    }
}

/// Every selection that is paired with an axis is an index from minus the
/// extent of the axis up to, not including, the extent.
pub open spec fn indices_in_range(selection: Seq<Selection>, shape: Seq<u64>) -> bool {
    forall|k: int|
        0 <= k < selection.len() && k < shape.len() ==> (#[trigger] selection[k]) is Index
            && -(shape[k] as int) <= selection[k]->Index_0 < shape[k]
}

/// The range that a tuple of indices in range selects on axis `k`: the one
/// element at the index modulo the extent, or the whole axis where the
/// tuple has no index for it.
pub open spec fn index_tuple_range(selection: Seq<Selection>, shape: Seq<u64>, k: int) -> (
    int,
    int,
) {
    if k < selection.len() {
        (
            selection[k]->Index_0 as int % (shape[k] as int),
            selection[k]->Index_0 as int % (shape[k] as int) + 1,
        )
    } else {
        (0int, shape[k] as int)
    }
}

/// The first `n` indices of a tuple of indices in range each select one
/// element.
proof fn lemma_index_tuple(selection: Seq<Selection>, shape: Seq<u64>, n: int)
    requires
        indices_in_range(selection, shape),
        0 <= n <= paired(selection, shape),
    ensures
        selected(selection, shape, n) is Ok,
        selected(selection, shape, n)->Ok_0.len() == n,
        forall|k: int|
            0 <= k < n ==> #[trigger] selected(selection, shape, n)->Ok_0[k] == index_tuple_range(
                selection,
                shape,
                k,
            ),
    decreases n,
{
    if n > 0 {
        lemma_index_tuple(selection, shape, n - 1);
        assert(selection[n - 1] is Index);
        law_index_wraps(shape[n - 1] as int, selection[n - 1]->Index_0 as int);
    }
}

/// A tuple of indices, each from minus the extent of its axis up to, not
/// including, the extent, addresses a region of every axis of the array:
/// on the axis of an index the one element at the index modulo the extent,
/// and the whole of every axis beyond the tuple.
pub proof fn law_index_tuple(selection: Seq<Selection>, shape: Seq<u64>)
    requires
        indices_in_range(selection, shape),
    ensures
        covered(selection, shape) is Ok,
        covered(selection, shape)->Ok_0.len() == shape.len(),
        forall|k: int|
            0 <= k < shape.len() ==> #[trigger] covered(selection, shape)->Ok_0[k]
                == index_tuple_range(selection, shape, k),
{
    lemma_index_tuple(selection, shape, paired(selection, shape));
}

/// One range for every axis of an array of the given shape: the range given
/// for the axis, or the full range of an axis for which none is given.
pub fn fill_ranges(ranges: &[Range<u64>], shape: &[u64]) -> (full: Vec<Range<u64>>)
    ensures
        pairs_of(full@) == filled(pairs_of(ranges@), shape@),
{
    let mut full: Vec<Range<u64>> = Vec::new();
    let mut i: usize = 0;
    while i < shape.len()
        invariant
            i <= shape.len(),
            full@.len() == i,
            forall|j: int|
                0 <= j < i ==> (#[trigger] full@[j].start as int, full@[j].end as int) == filled(
                    pairs_of(ranges@),
                    shape@,
                )[j],
        decreases shape.len() - i,
    {
        if i < ranges.len() {
            full.push(ranges[i].start..ranges[i].end);
        } else {
            full.push(0..shape[i]);
        }
        i += 1;
    }
    proof {
        assert(pairs_of(full@) =~= filled(pairs_of(ranges@), shape@));
    }
    full
}

/// The region that a list of selections addresses in an array of the given
/// shape, one range for every axis of the array.
pub fn cover(selection: &[Selection], shape: &[u64]) -> (result: Result<
    Vec<Range<u64>>,
    PipelineError,
>)
    ensures
        match result {
            Ok(ranges) => {
                &&& covered(selection@, shape@) == Ok::<Seq<(int, int)>, PipelineError>(
                    pairs_of(ranges@),
                )
                &&& ranges@.len() == shape@.len()
                &&& forall|i: int|
                    0 <= i < ranges@.len() ==> (#[trigger] ranges@[i]).start <= ranges@[i].end
                        <= shape@[i]
            },
            Err(e) => covered(selection@, shape@) == Err::<Seq<(int, int)>, PipelineError>(e),
        },
{
    match normalize_all(selection, shape) {
        Ok(ranges) => {
            let full = fill_ranges(ranges.as_slice(), shape);
            proof {
                let part = selected(selection@, shape@, paired(selection@, shape@))->Ok_0;
                assert(pairs_of(ranges@) =~= part);
                assert(full@.len() == pairs_of(full@).len());
                assert forall|i: int| 0 <= i < full@.len() implies (#[trigger] full@[i]).start
                    <= full@[i].end <= shape@[i] by {
                    assert(pairs_of(full@)[i] == filled(part, shape@)[i]);
                    if i < ranges@.len() {
                        assert(ranges@[i].start <= ranges@[i].end <= shape@[i]);
                    }
                }
            }
            Ok(full)
        },
        Err(e) => Err(e),
    }
}

/// Where each range begins.
pub open spec fn lows(ranges: Seq<(int, int)>) -> Seq<int> {
    Seq::new(ranges.len(), |i: int| ranges[i].0)
}

/// How many positions each range holds.
pub open spec fn spans(ranges: Seq<(int, int)>) -> Seq<int> {
    Seq::new(ranges.len(), |i: int| ranges[i].1 - ranges[i].0)
}

/// The ranges of a list of selections on the axes of an array, one for each
/// pair of a selection and an axis, or the failure of the first selection
/// that has none.
pub fn normalize_all(selection: &[Selection], shape: &[u64]) -> (result: Result<
    Vec<Range<u64>>,
    PipelineError,
>)
    ensures
        match result {
            Ok(ranges) => {
                &&& ranges@.len() == paired(selection@, shape@)
                &&& selected(selection@, shape@, paired(selection@, shape@)) == Ok::<
                    Seq<(int, int)>,
                    PipelineError,
                >(Seq::new(ranges@.len(), |i: int| (ranges@[i].start as int, ranges@[i].end as int)))
                &&& forall|i: int|
                    0 <= i < ranges@.len() ==> (#[trigger] ranges@[i]).start <= ranges@[i].end
                        <= shape@[i]
            },
            Err(e) => selected(selection@, shape@, paired(selection@, shape@)) == Err::<
                Seq<(int, int)>,
                PipelineError,
            >(e),
        },
{
    let n = if selection.len() <= shape.len() {
        selection.len()
    } else {
        shape.len()
    };
    let mut ranges: Vec<Range<u64>> = Vec::new();
    let mut i: usize = 0;
    proof {
        assert(Seq::new(0, |j: int| (ranges@[j].start as int, ranges@[j].end as int))
            =~= Seq::<(int, int)>::empty());
    }
    while i < n
        invariant
            i <= n,
            n == paired(selection@, shape@),
            ranges@.len() == i,
            selected(selection@, shape@, i as int) == Ok::<Seq<(int, int)>, PipelineError>(
                Seq::new(i as nat, |j: int| (ranges@[j].start as int, ranges@[j].end as int)),
            ),
            forall|j: int|
                0 <= j < i ==> (#[trigger] ranges@[j]).start <= ranges@[j].end <= shape@[j],
        decreases n - i,
    {
        let ghost before = Seq::new(
            i as nat,
            |j: int| (ranges@[j].start as int, ranges@[j].end as int),
        );
        match selection[i].normalize(shape[i]) {
            Ok(r) => {
                ranges.push(r);
                proof {
                    let after = Seq::new(
                        (i + 1) as nat,
                        |j: int| (ranges@[j].start as int, ranges@[j].end as int),
                    );
                    assert(after =~= before.push((r.start as int, r.end as int)));
                }
            },
            Err(e) => {
                proof {
                    lemma_selected_fails(selection@, shape@, i as int + 1, n as int);
                }
                return Err(e);
            },
        }
        i += 1;
    }
    Ok(ranges)
}

/// Once a selection has failed, the failure stays however many more axes are
/// looked at.
pub proof fn lemma_selected_fails(selection: Seq<Selection>, shape: Seq<u64>, m: int, n: int)
    requires
        0 <= m <= n,
        selected(selection, shape, m) is Err,
    ensures
        selected(selection, shape, n) == selected(selection, shape, m),
    decreases n - m,
{
    if m < n {
        lemma_selected_fails(selection, shape, m, n - 1);
    }
}

} // verus!
