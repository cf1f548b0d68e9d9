//! Axis-aligned regions of a dense array, and what it means to read one out
//! of a flat buffer or to write one into it.
//!
//! A region is given by its origin and its extent on every axis. Its elements
//! are numbered in row-major order, as those of an array of their own.

use vstd::prelude::*;
use vstd::arithmetic::div_mod::lemma_fundamental_div_mod_converse;
use crate::layout::{inside, lemma_product_zero, lemma_ravel_bounds, lemma_ravel_unravel,
    lemma_unravel, positive, product, ravel, unravel};

verus! {

/// The region lies within an array of the given shape.
pub open spec fn fits(start: Seq<int>, extent: Seq<int>, shape: Seq<int>) -> bool {
    &&& start.len() == shape.len()
    &&& extent.len() == shape.len()
    &&& forall|i: int|
        0 <= i < shape.len() ==> 0 <= #[trigger] start[i] && 0 <= extent[i] && start[i]
            + extent[i] <= shape[i]
}

/// `coords` names an element of the region.
pub open spec fn within(coords: Seq<int>, start: Seq<int>, extent: Seq<int>) -> bool {
    &&& coords.len() == start.len()
    &&& coords.len() == extent.len()
    &&& forall|i: int|
        0 <= i < start.len() ==> start[i] <= #[trigger] coords[i] < start[i] + extent[i]
}

/// Coordinates counted from the region's origin, as coordinates of the array.
pub open spec fn shifted(coords: Seq<int>, start: Seq<int>) -> Seq<int> {
    Seq::new(coords.len(), |i: int| coords[i] + start[i])
}

/// Coordinates of the array, counted from the region's origin.
pub open spec fn local(coords: Seq<int>, start: Seq<int>) -> Seq<int> {
    Seq::new(coords.len(), |i: int| coords[i] - start[i])
}

/// The position in the array's buffer of the region's `k`-th element.
pub open spec fn offset(k: int, start: Seq<int>, extent: Seq<int>, shape: Seq<int>) -> int {
    ravel(shifted(unravel(k, extent), start), shape)
}

/// The number within the region of the element at position `e` of the
/// array's buffer. Meaningful where that element lies in the region.
pub open spec fn rank(e: int, start: Seq<int>, extent: Seq<int>, shape: Seq<int>) -> int {
    ravel(local(unravel(e, shape), start), extent)
}

/// The element at position `e` of the array's buffer lies in the region.
pub open spec fn covers(e: int, start: Seq<int>, extent: Seq<int>, shape: Seq<int>) -> bool {
    within(unravel(e, shape), start, extent)
}

/// The elements of the region, in its own order, read out of `base`.
pub open spec fn gathered<T>(
    base: Seq<T>,
    shape: Seq<int>,
    start: Seq<int>,
    extent: Seq<int>,
) -> Seq<T> {
    Seq::new(product(extent) as nat, |k: int| base[offset(k, start, extent, shape)])
}

/// `base` with the elements of the region replaced by `data`, taken in the
/// region's own order. Every other element is kept.
pub open spec fn scattered<T>(
    base: Seq<T>,
    shape: Seq<int>,
    start: Seq<int>,
    extent: Seq<int>,
    data: Seq<T>,
) -> Seq<T> {
    Seq::new(
        base.len(),
        |e: int|
            if covers(e, start, extent, shape) {
                data[rank(e, start, extent, shape)]
            } else {
                base[e]
            },
    )
}

/// Two regions of one array share no element.
pub open spec fn disjoint(
    start_a: Seq<int>,
    extent_a: Seq<int>,
    start_b: Seq<int>,
    extent_b: Seq<int>,
) -> bool {
    forall|coords: Seq<int>|
        !(#[trigger] within(coords, start_a, extent_a) && within(coords, start_b, extent_b))
}

/// A region that fits an array and has an element makes the array's axes
/// non-empty.
pub proof fn lemma_fits_positive(start: Seq<int>, extent: Seq<int>, shape: Seq<int>)
    requires
        fits(start, extent, shape),
        positive(extent),
    ensures
        positive(shape),
{
    assert forall|i: int| 0 <= i < shape.len() implies 0 < #[trigger] shape[i] by {
        assert(0 <= start[i]);
        assert(0 < extent[i]);
    }
}

/// A shape with non-negative axes and at least one element has no empty axis.
pub proof fn lemma_nonempty_positive(shape: Seq<int>)
    requires
        forall|i: int| 0 <= i < shape.len() ==> 0 <= #[trigger] shape[i],
        product(shape) != 0,
    ensures
        positive(shape),
{
    assert forall|i: int| 0 <= i < shape.len() implies 0 < #[trigger] shape[i] by {
        if shape[i] == 0 {
            lemma_product_zero(shape, i);
        }
    }
}

/// The region's `k`-th element lies in the array, in the region, and has
/// number `k` there.
pub proof fn lemma_offset(k: int, start: Seq<int>, extent: Seq<int>, shape: Seq<int>)
    requires
        fits(start, extent, shape),
        0 <= k < product(extent),
    ensures
        positive(extent),
        positive(shape),
        0 <= offset(k, start, extent, shape) < product(shape),
        covers(offset(k, start, extent, shape), start, extent, shape),
        rank(offset(k, start, extent, shape), start, extent, shape) == k,
        unravel(offset(k, start, extent, shape), shape) =~= shifted(unravel(k, extent), start),
{
    assert forall|i: int| 0 <= i < extent.len() implies 0 <= #[trigger] extent[i] by {
        assert(0 <= start[i]);
    }
    lemma_nonempty_positive(extent);
    lemma_fits_positive(start, extent, shape);
    lemma_unravel(k, extent);
    let u = unravel(k, extent);
    let c = shifted(u, start);
    assert forall|i: int| 0 <= i < shape.len() implies 0 <= #[trigger] c[i] < shape[i] by {
        assert(0 <= u[i] < extent[i]);
        assert(0 <= start[i]);
    }
    lemma_ravel_bounds(c, shape);
    lemma_ravel_unravel(c, shape);
    assert(unravel(offset(k, start, extent, shape), shape) =~= c);
    assert forall|i: int| 0 <= i < start.len() implies start[i] <= #[trigger] c[i] < start[i]
        + extent[i] by {
        assert(0 <= u[i] < extent[i]);
    }
    assert(local(c, start) =~= u);
}

/// An element of the array that lies in the region is the element of the
/// region with its number.
pub proof fn lemma_rank(e: int, start: Seq<int>, extent: Seq<int>, shape: Seq<int>)
    requires
        fits(start, extent, shape),
        positive(shape),
        0 <= e < product(shape),
        covers(e, start, extent, shape),
    ensures
        0 <= rank(e, start, extent, shape) < product(extent),
        offset(rank(e, start, extent, shape), start, extent, shape) == e,
{
    lemma_unravel(e, shape);
    let c = unravel(e, shape);
    let l = local(c, start);
    assert forall|i: int| 0 <= i < extent.len() implies 0 <= #[trigger] l[i] < extent[i] by {
        assert(start[i] <= c[i] < start[i] + extent[i]);
    }
    lemma_ravel_bounds(l, extent);
    lemma_ravel_unravel(l, extent);
    assert(shifted(l, start) =~= c);
}

/// Reading a region back after writing it gives what was written.
pub proof fn law_gather_scattered<T>(
    base: Seq<T>,
    shape: Seq<int>,
    start: Seq<int>,
    extent: Seq<int>,
    data: Seq<T>,
)
    requires
        fits(start, extent, shape),
        base.len() == product(shape),
        data.len() == product(extent),
    ensures
        gathered(scattered(base, shape, start, extent, data), shape, start, extent) == data,
{
    let after = scattered(base, shape, start, extent, data);
    let back = gathered(after, shape, start, extent);
    assert forall|k: int| 0 <= k < data.len() implies back[k] == data[k] by {
        lemma_offset(k, start, extent, shape);
    }
    assert(back =~= data);
}

/// Writing a region changes nothing outside it.
pub proof fn law_scatter_keeps_rest<T>(
    base: Seq<T>,
    shape: Seq<int>,
    start: Seq<int>,
    extent: Seq<int>,
    data: Seq<T>,
    e: int,
)
    requires
        0 <= e < base.len(),
        !covers(e, start, extent, shape),
    ensures
        scattered(base, shape, start, extent, data)[e] == base[e],
{
}

/// Writes to two regions that share no element give the same buffer in
/// either order.
pub proof fn law_disjoint_scatters_commute<T>(
    base: Seq<T>,
    shape: Seq<int>,
    start_a: Seq<int>,
    extent_a: Seq<int>,
    data_a: Seq<T>,
    start_b: Seq<int>,
    extent_b: Seq<int>,
    data_b: Seq<T>,
)
    requires
        disjoint(start_a, extent_a, start_b, extent_b),
    ensures
        scattered(
            scattered(base, shape, start_a, extent_a, data_a),
            shape,
            start_b,
            extent_b,
            data_b,
        ) == scattered(
            scattered(base, shape, start_b, extent_b, data_b),
            shape,
            start_a,
            extent_a,
            data_a,
        ),
{
    let first = scattered(
        scattered(base, shape, start_a, extent_a, data_a),
        shape,
        start_b,
        extent_b,
        data_b,
    );
    let second = scattered(
        scattered(base, shape, start_b, extent_b, data_b),
        shape,
        start_a,
        extent_a,
        data_a,
    );
    assert forall|e: int| 0 <= e < base.len() implies first[e] == second[e] by {
        let c = unravel(e, shape);
        assert(!(within(c, start_a, extent_a) && within(c, start_b, extent_b)));
    }
    assert(first =~= second);
}

/// Two regions that share no element share no byte either, once both have
/// the axis of bytes.
pub proof fn lemma_wide_disjoint(
    start_a: Seq<int>,
    extent_a: Seq<int>,
    start_b: Seq<int>,
    extent_b: Seq<int>,
    width: int,
)
    requires
        disjoint(start_a, extent_a, start_b, extent_b),
    ensures
        disjoint(start_a.push(0), extent_a.push(width), start_b.push(0), extent_b.push(width)),
{
    let wa = start_a.push(0);
    let ea = extent_a.push(width);
    let wb = start_b.push(0);
    let eb = extent_b.push(width);
    assert forall|coords: Seq<int>| !(#[trigger] within(coords, wa, ea) && within(coords, wb, eb)) by {
        if within(coords, wa, ea) && within(coords, wb, eb) {
            let c = coords.drop_last();
            assert forall|i: int| 0 <= i < start_a.len() implies start_a[i] <= #[trigger] c[i]
                < start_a[i] + extent_a[i] by {
                assert(wa[i] <= coords[i] < wa[i] + ea[i]);
            }
            assert forall|i: int| 0 <= i < start_b.len() implies start_b[i] <= #[trigger] c[i]
                < start_b[i] + extent_b[i] by {
                assert(wb[i] <= coords[i] < wb[i] + eb[i]);
            }
            assert(within(c, start_a, extent_a));
            assert(within(c, start_b, extent_b));
        }
    }
}

/// With one more, innermost axis of `width` positions, position `k * width + b`
/// of the region is position `b` within its `k`-th element.
pub proof fn lemma_offset_inner(
    k: int,
    b: int,
    width: int,
    start: Seq<int>,
    extent: Seq<int>,
    shape: Seq<int>,
)
    requires
        start.len() == extent.len(),
        0 <= b < width,
    ensures
        offset(k * width + b, start.push(0), extent.push(width), shape.push(width)) == offset(
            k,
            start,
            extent,
            shape,
        ) * width + b,
{
    let wide_extent = extent.push(width);
    let wide_start = start.push(0);
    let wide_shape = shape.push(width);
    lemma_fundamental_div_mod_converse(k * width + b, width, k, b);
    assert(wide_extent.drop_last() =~= extent);
    assert(wide_shape.drop_last() =~= shape);
    let u = unravel(k, extent);
    assert(unravel(k * width + b, wide_extent) == u.push(b));
    lemma_unravel_len(k, extent);
    let c = shifted(u, start);
    assert(shifted(u.push(b), wide_start) =~= c.push(b));
    assert(c.push(b).drop_last() =~= c);
}

/// Coordinates have one entry for each axis.
pub proof fn lemma_unravel_len(k: int, shape: Seq<int>)
    ensures
        unravel(k, shape).len() == shape.len(),
    decreases shape.len(),
{
    if shape.len() > 0 {
        lemma_unravel_len(k / shape.last(), shape.drop_last());
    }
}

} // verus!
