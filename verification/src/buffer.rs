//! Reading regions out of a dense row-major byte buffer and writing them into
//! one. Every element is `width` bytes wide, so the bytes of an array form an
//! array with one more, innermost axis of `width` positions.

use vstd::prelude::*;
use vstd::arithmetic::div_mod::lemma_fundamental_div_mod_converse;
use vstd::arithmetic::div_mod::lemma_fundamental_div_mod;
use vstd::arithmetic::div_mod::lemma_mod_pos_bound;
use crate::layout::{element_count, ints, product, positive, inside, ravel, unravel, lemma_prefix_product,
    lemma_ravel_bounds, lemma_unravel, lemma_product_positive};
use crate::region::{fits, shifted, offset, rank, covers, gathered, scattered, lemma_offset,
    lemma_rank, lemma_offset_inner, lemma_unravel_len, lemma_nonempty_positive};
use crate::subset::ArraySubset;

verus! {

/// The bytes of the region's elements, in the region's own order.
pub open spec fn extracted(
    base: Seq<u8>,
    shape: Seq<int>,
    start: Seq<int>,
    extent: Seq<int>,
    width: int,
) -> Seq<u8> {
    gathered(base, shape.push(width), start.push(0), extent.push(width))
}

/// `base` with the bytes of the region's elements replaced by `data`, taken
/// in the region's own order.
pub open spec fn updated(
    base: Seq<u8>,
    shape: Seq<int>,
    start: Seq<int>,
    extent: Seq<int>,
    width: int,
    data: Seq<u8>,
) -> Seq<u8> {
    scattered(base, shape.push(width), start.push(0), extent.push(width), data)
}

/// `count` copies of `value`, one after the other.
pub open spec fn repeated(value: Seq<u8>, count: int) -> Seq<u8> {
    Seq::new((count * value.len()) as nat, |p: int| value[p % (value.len() as int)])
}

/// `bytes` is one or more copies of `value` and nothing else. With an empty
/// `value` only the empty buffer is.
pub open spec fn uniform(bytes: Seq<u8>, value: Seq<u8>) -> bool {
    if value.len() == 0 {
        bytes.len() == 0
    } else {
        &&& bytes.len() >= value.len()
        &&& bytes.len() % value.len() == 0
        &&& forall|p: int| 0 <= p < bytes.len() ==> #[trigger] bytes[p] == value[p % (value.len() as int)]
    }
}

/// With one more axis of `width` positions, a shape holds `width` times as
/// many elements.
pub proof fn lemma_wide_product(shape: Seq<int>, width: int)
    ensures
        product(shape.push(width)) == product(shape) * width,
{
    assert(shape.push(width).drop_last() =~= shape);
}

/// A region that fits an array still fits once both have the axis of bytes.
pub proof fn lemma_wide_fits(start: Seq<int>, extent: Seq<int>, shape: Seq<int>, width: int)
    requires
        fits(start, extent, shape),
        0 <= width,
    ensures
        fits(start.push(0), extent.push(width), shape.push(width)),
{
    let ws = start.push(0);
    let we = extent.push(width);
    let wh = shape.push(width);
    assert forall|i: int| 0 <= i < wh.len() implies 0 <= #[trigger] ws[i] && 0 <= we[i] && ws[i]
        + we[i] <= wh[i] by {
        if i < shape.len() {
            assert(0 <= start[i]);
        }
    }
}

/// A region that fits an array holds no more elements than the array.
pub proof fn lemma_fits_product(start: Seq<int>, extent: Seq<int>, shape: Seq<int>)
    requires
        fits(start, extent, shape),
    ensures
        0 <= product(extent) <= product(shape),
    decreases shape.len(),
{
    if shape.len() > 0 {
        let s0 = start.drop_last();
        let e0 = extent.drop_last();
        let h0 = shape.drop_last();
        assert forall|i: int| 0 <= i < h0.len() implies 0 <= #[trigger] s0[i] && 0 <= e0[i]
            && s0[i] + e0[i] <= h0[i] by {
            assert(0 <= start[i]);
        }
        lemma_fits_product(s0, e0, h0);
        let last = shape.len() - 1;
        assert(0 <= start[last]);
        let pe = product(e0);
        let ph = product(h0);
        let e = extent.last();
        let h = shape.last();
        assert(0 <= pe * e <= ph * h) by (nonlinear_arith)
            requires
                0 <= pe <= ph,
                0 <= e <= h,
        ;
    }
}

/// The position in the array's buffer of the region's `k`-th element.
/// `scratch` holds one entry for each axis and is overwritten.
fn element_offset(
    k: u64,
    start: &Vec<u64>,
    extent: &Vec<u64>,
    shape: &[u64],
    scratch: &mut Vec<u64>,
) -> (position: u64)
    requires
        fits(ints(start@), ints(extent@), ints(shape@)),
        0 <= k < product(ints(extent@)),
        product(ints(shape@)) <= u64::MAX,
        old(scratch)@.len() == shape@.len(),
    ensures
        position == offset(k as int, ints(start@), ints(extent@), ints(shape@)),
        position < product(ints(shape@)),
        final(scratch)@.len() == shape@.len(),
{
    let n = shape.len();
    let ghost s = ints(start@);
    let ghost e = ints(extent@);
    let ghost h = ints(shape@);
    let ghost u = unravel(k as int, e);
    let ghost c = shifted(u, s);
    proof {
        lemma_offset(k as int, s, e, h);
        lemma_unravel(k as int, e);
        lemma_unravel_len(k as int, e);
        assert(e.subrange(0, n as int) =~= e);
        assert(u.subrange(0, n as int) =~= u);
    }
    let mut rem: u64 = k;
    let mut m: usize = n;
    while m > 0
        invariant
            m <= n,
            n == shape@.len(),
            n == extent@.len(),
            scratch@.len() == n,
            e == ints(extent@),
            positive(e),
            u.len() == n,
            unravel(rem as int, e.subrange(0, m as int)) =~= u.subrange(0, m as int),
            forall|j: int| m <= j < n ==> #[trigger] scratch@[j] as int == u[j],
        decreases m,
    {
        proof {
            let part = e.subrange(0, m as int);
            assert(part.last() == e[m - 1]);
            assert(part.drop_last() =~= e.subrange(0, m - 1));
            let rest = unravel(rem as int / part.last(), part.drop_last());
            assert(unravel(rem as int, part) == rest.push(rem as int % part.last()));
            assert(u.subrange(0, m as int)[m - 1] == rem as int % part.last());
            assert(u.subrange(0, m as int).drop_last() =~= u.subrange(0, m - 1));
            assert(rest.push(rem as int % part.last()).drop_last() =~= rest);
            assert(0 < e[m - 1]);
        }
        m -= 1;
        let d: u64 = extent[m];
        scratch.set(m, rem % d);
        rem = rem / d;
    }
    let mut total: u64 = 0;
    let mut i: usize = 0;
    proof {
        assert(c.subrange(0, 0) =~= Seq::<int>::empty());
    }
    while i < n
        invariant
            i <= n,
            n == shape@.len(),
            n == start@.len(),
            scratch@.len() == n,
            s == ints(start@),
            h == ints(shape@),
            c == shifted(u, s),
            u.len() == n,
            inside(c, h),
            positive(h),
            product(h) <= u64::MAX,
            forall|j: int| 0 <= j < n ==> #[trigger] scratch@[j] as int == u[j],
            total == ravel(c.subrange(0, i as int), h.subrange(0, i as int)),
        decreases n - i,
    {
        proof {
            let cs = c.subrange(0, i + 1);
            let hs = h.subrange(0, i + 1);
            assert(cs.drop_last() =~= c.subrange(0, i as int));
            assert(hs.drop_last() =~= h.subrange(0, i as int));
            assert(cs.last() == c[i as int]);
            assert(hs.last() == h[i as int]);
            assert(c[i as int] == u[i as int] + s[i as int]);
            assert(scratch@[i as int] as int == u[i as int]);
            assert forall|j: int| 0 <= j < hs.len() implies 0 <= #[trigger] cs[j] < hs[j] by {
                assert(0 <= c[j] < h[j]);
            }
            lemma_ravel_bounds(cs, hs);
            lemma_prefix_product(h, i + 1);
            assert(0 <= c[i as int] < h[i as int]);
            let r = ravel(c.subrange(0, i as int), h.subrange(0, i as int));
            assert(ravel(cs, hs) == r * h[i as int] + c[i as int]);
            assert forall|j: int| 0 <= j < i implies 0 <= #[trigger] c.subrange(0, i as int)[j]
                < h.subrange(0, i as int)[j] by {
                assert(0 <= c[j] < h[j]);
            }
            lemma_ravel_bounds(c.subrange(0, i as int), h.subrange(0, i as int));
            assert(0 <= r * h[i as int] <= r * h[i as int] + c[i as int]) by (nonlinear_arith)
                requires
                    0 <= r,
                    0 < h[i as int],
                    0 <= c[i as int],
            ;
        }
        total = total * shape[i] + (start[i] + scratch[i]);
        i += 1;
    }
    proof {
        assert(c.subrange(0, n as int) =~= c);
        assert(h.subrange(0, n as int) =~= h);
    }
    total
}

/// The origin of an array with `n` axes.
pub open spec fn zero_origin(n: nat) -> Seq<int> {
    Seq::new(n, |i: int| 0int)
}

/// Reading the whole of an array gives its buffer.
pub proof fn lemma_extract_whole(base: Seq<u8>, shape: Seq<int>, width: int)
    requires
        positive(shape),
        0 <= width,
        base.len() == product(shape) * width,
    ensures
        extracted(base, shape, zero_origin(shape.len()), shape, width) == base,
{
    let start = zero_origin(shape.len());
    let ws = start.push(0);
    let wh = shape.push(width);
    lemma_wide_product(shape, width);
    assert forall|k: int| 0 <= k < product(wh) implies offset(k, ws, wh, wh) == k by {
        lemma_nonempty_positive_wide(shape, width);
        lemma_unravel(k, wh);
        assert(shifted(unravel(k, wh), ws) =~= unravel(k, wh));
    }
    assert(extracted(base, shape, start, shape, width) =~= base);
}

/// A shape without an empty axis keeps none with an axis of bytes of
/// positive width.
proof fn lemma_nonempty_positive_wide(shape: Seq<int>, width: int)
    requires
        positive(shape),
        product(shape.push(width)) > 0,
    ensures
        positive(shape.push(width)),
{
    lemma_wide_product(shape, width);
    lemma_product_positive(shape);
    let p = product(shape);
    assert(width > 0) by (nonlinear_arith)
        requires
            p > 0,
            p * width > 0,
    ;
    let wh = shape.push(width);
    assert forall|i: int| 0 <= i < wh.len() implies 0 < #[trigger] wh[i] by {
        if i < shape.len() {
            assert(wh[i] == shape[i]);
        }
    }
}

/// A region read out of a buffer that repeats one element repeats that
/// element.
pub proof fn lemma_extract_repeated(
    value: Seq<u8>,
    shape: Seq<int>,
    start: Seq<int>,
    extent: Seq<int>,
)
    requires
        fits(start, extent, shape),
    ensures
        extracted(repeated(value, product(shape)), shape, start, extent, value.len() as int)
            == repeated(value, product(extent)),
{
    let w = value.len() as int;
    let ws = start.push(0);
    let we = extent.push(w);
    let wh = shape.push(w);
    let base = repeated(value, product(shape));
    lemma_wide_product(shape, w);
    lemma_wide_product(extent, w);
    lemma_wide_fits(start, extent, shape, w);
    lemma_fits_product(start, extent, shape);
    let left = extracted(base, shape, start, extent, w);
    let right = repeated(value, product(extent));
    assert(product(extent) * w >= 0) by (nonlinear_arith)
        requires
            product(extent) >= 0,
            w >= 0,
    ;
    assert(product(shape) * w >= 0) by (nonlinear_arith)
        requires
            product(shape) >= 0,
            w >= 0,
    ;
    assert(left.len() == right.len());
    assert forall|p: int| 0 <= p < left.len() implies left[p] == right[p] by {
        lemma_offset(p, ws, we, wh);
        lemma_fundamental_div_mod(p, w);
        lemma_mod_pos_bound(p, w);
        let k = p / w;
        let b = p % w;
        assert(p == k * w + b) by (nonlinear_arith)
            requires
                p == w * k + b,
        ;
        lemma_offset_inner(k, b, w, start, extent, shape);
        let o = offset(k, start, extent, shape);
        lemma_fundamental_div_mod_converse(o * w + b, w, o, b);
    }
    assert(left =~= right);
}

/// Reading a region back after writing it gives the bytes written.
pub proof fn law_extract_updated(
    base: Seq<u8>,
    shape: Seq<int>,
    start: Seq<int>,
    extent: Seq<int>,
    width: int,
    data: Seq<u8>,
)
    requires
        fits(start, extent, shape),
        0 <= width,
        base.len() == product(shape) * width,
        data.len() == product(extent) * width,
    ensures
        extracted(updated(base, shape, start, extent, width, data), shape, start, extent, width)
            == data,
{
    lemma_wide_product(shape, width);
    lemma_wide_product(extent, width);
    lemma_wide_fits(start, extent, shape, width);
    crate::region::law_gather_scattered(
        base,
        shape.push(width),
        start.push(0),
        extent.push(width),
        data,
    );
}

/// Writes to two regions that share no element give the same buffer in
/// either order.
pub proof fn law_disjoint_updates_commute(
    base: Seq<u8>,
    shape: Seq<int>,
    width: int,
    start_a: Seq<int>,
    extent_a: Seq<int>,
    data_a: Seq<u8>,
    start_b: Seq<int>,
    extent_b: Seq<int>,
    data_b: Seq<u8>,
)
    requires
        crate::region::disjoint(start_a, extent_a, start_b, extent_b),
    ensures
        updated(
            updated(base, shape, start_a, extent_a, width, data_a),
            shape,
            start_b,
            extent_b,
            width,
            data_b,
        ) == updated(
            updated(base, shape, start_b, extent_b, width, data_b),
            shape,
            start_a,
            extent_a,
            width,
            data_a,
        ),
{
    crate::region::lemma_wide_disjoint(start_a, extent_a, start_b, extent_b, width);
    crate::region::law_disjoint_scatters_commute(
        base,
        shape.push(width),
        start_a.push(0),
        extent_a.push(width),
        data_a,
        start_b.push(0),
        extent_b.push(width),
        data_b,
    );
}

/// A buffer of whole elements that is uniform is the buffer that repeats
/// the element.
pub proof fn lemma_uniform_repeated(bytes: Seq<u8>, value: Seq<u8>, count: int)
    requires
        uniform(bytes, value),
        bytes.len() == count * value.len(),
    ensures
        bytes == repeated(value, count),
{
    assert(bytes =~= repeated(value, count));
}

/// The length of what is read out of a region.
pub proof fn lemma_extracted_len(
    base: Seq<u8>,
    shape: Seq<int>,
    start: Seq<int>,
    extent: Seq<int>,
    width: int,
)
    requires
        fits(start, extent, shape),
        0 <= width,
    ensures
        extracted(base, shape, start, extent, width).len() == product(extent) * width,
        0 <= product(extent) * width,
{
    lemma_wide_product(extent, width);
    lemma_fits_product(start, extent, shape);
    assert(0 <= product(extent) * width) by (nonlinear_arith)
        requires
            0 <= product(extent),
            0 <= width,
    ;
}

/// A vector of `n` zeros.
fn zeros(n: usize) -> (v: Vec<u64>)
    ensures
        v@.len() == n,
{
    let mut v: Vec<u64> = Vec::new();
    let mut i: usize = 0;
    while i < n
        invariant
            i <= n,
            v@.len() == i,
        decreases n - i,
    {
        v.push(0);
        i += 1;
    }
    v
}

/// Reads the region `subset` out of the buffer `base` of an array of the
/// given shape, whose elements are `width` bytes wide.
pub fn extract(base: &[u8], shape: &[u64], subset: &ArraySubset, width: usize) -> (out: Vec<u8>)
    requires
        fits(subset.origin(), subset.extent(), ints(shape@)),
        base@.len() == product(ints(shape@)) * width,
    ensures
        out@ == extracted(base@, ints(shape@), subset.origin(), subset.extent(), width as int),
        out@.len() == subset.count() * width,
{
    let start = subset.start();
    let extent = subset.shape();
    let ghost s = ints(start@);
    let ghost e = ints(extent@);
    let ghost h = ints(shape@);
    let ghost w = width as int;
    proof {
        lemma_fits_product(s, e, h);
        lemma_wide_product(e, w);
        lemma_wide_product(h, w);
        lemma_wide_fits(s, e, h, w);
    }
    let mut out: Vec<u8> = Vec::new();
    if width == 0 {
        proof {
            assert(product(e) * 0 == 0) by (nonlinear_arith);
            assert(out@ =~= extracted(base@, h, s, e, w));
        }
        return out;
    }
    proof {
        let ph = product(h);
        let pe = product(e);
        assert(ph <= ph * w && pe * w <= ph * w) by (nonlinear_arith)
            requires
                0 <= pe <= ph,
                1 <= w,
        ;
    }
    let size: usize = base.len();
    let count: u64 = match subset.num_elements() {
        Some(n) => n,
        None => {
            assert(false);
            return out;
        },
    };
    let mut scratch = zeros(shape.len());
    let mut k: u64 = 0;
    while k < count
        invariant
            k <= count,
            count == product(e),
            size == base@.len(),
            s == ints(start@),
            e == ints(extent@),
            h == ints(shape@),
            s == subset.origin(),
            e == subset.extent(),
            w == width as int,
            w > 0,
            fits(s, e, h),
            base@.len() == product(h) * w,
            product(h) <= u64::MAX,
            product(e) * w <= base@.len(),
            scratch@.len() == shape@.len(),
            out@.len() == k * w,
            forall|p: int|
                0 <= p < out@.len() ==> #[trigger] out@[p] == base@[offset(
                    p,
                    s.push(0),
                    e.push(w),
                    h.push(w),
                )],
        decreases count - k,
    {
        let position = element_offset(k, start, extent, shape, &mut scratch);
        proof {
            let ph = product(h);
            assert((position + 1) * w <= ph * w) by (nonlinear_arith)
                requires
                    0 <= position < ph,
                    0 < w,
            ;
            assert((k + 1) * w <= product(e) * w) by (nonlinear_arith)
                requires
                    0 <= k < product(e),
                    0 < w,
            ;
            assert((position + 1) * w == position * w + w) by (nonlinear_arith);
            assert((k + 1) * w == k * w + w) by (nonlinear_arith);
            assert(0 <= position * w) by (nonlinear_arith)
                requires
                    0 <= position,
                    0 < w,
            ;
            assert(position <= position * w) by (nonlinear_arith)
                requires
                    0 <= position,
                    1 <= w,
            ;
        }
        let first: usize = (position as usize) * width;
        let mut b: usize = 0;
        while b < width
            invariant
                b <= width,
                w == width as int,
                first == position * w,
                first + w <= base@.len(),
                size == base@.len(),
                position == offset(k as int, s, e, h),
                s.len() == e.len(),
                out@.len() == k * w + b,
                forall|p: int|
                    0 <= p < out@.len() ==> #[trigger] out@[p] == base@[offset(
                        p,
                        s.push(0),
                        e.push(w),
                        h.push(w),
                    )],
            decreases width - b,
        {
            proof {
                lemma_offset_inner(k as int, b as int, w, s, e, h);
            }
            out.push(base[first + b]);
            b += 1;
        }
        k += 1;
    }
    proof {
        assert(out@ =~= extracted(base@, h, s, e, w));
    }
    out
}

/// Writes `data` over the region `subset` of the buffer `base` of an array of
/// the given shape, whose elements are `width` bytes wide. Bytes outside the
/// region are kept.
pub fn update(base: &mut Vec<u8>, shape: &[u64], subset: &ArraySubset, width: usize, data: &[u8])
    requires
        fits(subset.origin(), subset.extent(), ints(shape@)),
        old(base)@.len() == product(ints(shape@)) * width,
        data@.len() == subset.count() * width,
    ensures
        final(base)@ == updated(
            old(base)@,
            ints(shape@),
            subset.origin(),
            subset.extent(),
            width as int,
            data@,
        ),
        final(base)@.len() == old(base)@.len(),
{
    let start = subset.start();
    let extent = subset.shape();
    let ghost s = ints(start@);
    let ghost e = ints(extent@);
    let ghost h = ints(shape@);
    let ghost w = width as int;
    let ghost ws = s.push(0);
    let ghost we = e.push(w);
    let ghost wh = h.push(w);
    let ghost before = base@;
    proof {
        lemma_fits_product(s, e, h);
        lemma_wide_product(e, w);
        lemma_wide_product(h, w);
        lemma_wide_fits(s, e, h, w);
    }
    if width == 0 {
        proof {
            assert(product(h) * 0 == 0) by (nonlinear_arith);
            assert(base@ =~= updated(before, h, s, e, w, data@));
        }
        return ;
    }
    proof {
        let ph = product(h);
        let pe = product(e);
        assert(ph <= ph * w && pe * w <= ph * w) by (nonlinear_arith)
            requires
                0 <= pe <= ph,
                1 <= w,
        ;
    }
    let size: usize = base.len();
    let count: u64 = match subset.num_elements() {
        Some(n) => n,
        None => {
            assert(false);
            return ;
        },
    };
    let mut scratch = zeros(shape.len());
    let mut k: u64 = 0;
    proof {
        assert forall|p: int| 0 <= p < base@.len() implies !(covers(p, ws, we, wh) && #[trigger] rank(
            p,
            ws,
            we,
            wh,
        ) < 0) by {
            if covers(p, ws, we, wh) {
                lemma_nonempty_positive(wh);
                lemma_rank(p, ws, we, wh);
            }
        }
    }
    while k < count
        invariant
            k <= count,
            count == product(e),
            size == base@.len(),
            s == ints(start@),
            e == ints(extent@),
            h == ints(shape@),
            s == subset.origin(),
            e == subset.extent(),
            ws == s.push(0),
            we == e.push(w),
            wh == h.push(w),
            w == width as int,
            w > 0,
            fits(s, e, h),
            fits(ws, we, wh),
            product(wh) == product(h) * w,
            product(we) == product(e) * w,
            before.len() == product(h) * w,
            base@.len() == before.len(),
            data@.len() == product(e) * w,
            data@.len() <= size,
            product(h) <= u64::MAX,
            scratch@.len() == shape@.len(),
            forall|p: int|
                0 <= p < base@.len() ==> #[trigger] base@[p] == (if covers(p, ws, we, wh) && rank(
                    p,
                    ws,
                    we,
                    wh,
                ) < k * w {
                    data@[rank(p, ws, we, wh)]
                } else {
                    before[p]
                }),
        decreases count - k,
    {
        let position = element_offset(k, start, extent, shape, &mut scratch);
        proof {
            let ph = product(h);
            assert((position + 1) * w <= ph * w) by (nonlinear_arith)
                requires
                    0 <= position < ph,
                    0 < w,
            ;
            assert((k + 1) * w <= product(e) * w) by (nonlinear_arith)
                requires
                    0 <= k < product(e),
                    0 < w,
            ;
            assert((position + 1) * w == position * w + w) by (nonlinear_arith);
            assert((k + 1) * w == k * w + w) by (nonlinear_arith);
            assert(0 <= position * w) by (nonlinear_arith)
                requires
                    0 <= position,
                    0 < w,
            ;
            assert(position <= position * w) by (nonlinear_arith)
                requires
                    0 <= position,
                    1 <= w,
            ;
            assert(0 <= k <= k * w) by (nonlinear_arith)
                requires
                    0 <= k,
                    1 <= w,
            ;
        }
        let first: usize = (position as usize) * width;
        let from: usize = (k as usize) * width;
        let mut b: usize = 0;
        while b < width
            invariant
                b <= width,
                w == width as int,
                w > 0,
                first == position * w,
                from == k * w,
                first + w <= base@.len(),
                from + w <= data@.len(),
                data@.len() <= size,
                size == base@.len(),
                base@.len() == before.len(),
                position == offset(k as int, s, e, h),
                s.len() == e.len(),
                ws == s.push(0),
                we == e.push(w),
                wh == h.push(w),
                fits(ws, we, wh),
                product(wh) == before.len(),
                product(we) == data@.len(),
                forall|p: int|
                    0 <= p < base@.len() ==> #[trigger] base@[p] == (if covers(p, ws, we, wh)
                        && rank(p, ws, we, wh) < k * w + b {
                        data@[rank(p, ws, we, wh)]
                    } else {
                        before[p]
                    }),
            decreases width - b,
        {
            let ghost done = k * w + b;
            let ghost prior = base@;
            proof {
                lemma_offset_inner(k as int, b as int, w, s, e, h);
                lemma_offset(done, ws, we, wh);
            }
            base.set(first + b, data[from + b]);
            proof {
                assert forall|p: int| 0 <= p < base@.len() implies #[trigger] base@[p] == (
                if covers(p, ws, we, wh) && rank(p, ws, we, wh) < done + 1 {
                    data@[rank(p, ws, we, wh)]
                } else {
                    before[p]
                }) by {
                    if p != first + b {
                        assert(base@[p] == prior[p]);
                        if covers(p, ws, we, wh) {
                            lemma_rank(p, ws, we, wh);
                        }
                    }
                }
            }
            b += 1;
        }
        k += 1;
    }
    proof {
        assert forall|p: int| 0 <= p < base@.len() implies #[trigger] base@[p] == updated(
            before,
            h,
            s,
            e,
            w,
            data@,
        )[p] by {
            if covers(p, ws, we, wh) {
                lemma_nonempty_positive(wh);
                lemma_rank(p, ws, we, wh);
            }
        }
        assert(base@ =~= updated(before, h, s, e, w, data@));
    }
}

/// A buffer of `count` copies of `value`.
pub fn repeat(value: &[u8], count: u64) -> (out: Vec<u8>)
    requires
        count * value@.len() <= usize::MAX,
    ensures
        out@ == repeated(value@, count as int),
        out@.len() == count * value@.len(),
{
    let width = value.len();
    let ghost w = width as int;
    let mut out: Vec<u8> = Vec::new();
    if width == 0 {
        proof {
            assert(count * 0 == 0) by (nonlinear_arith);
            assert(out@ =~= repeated(value@, count as int));
        }
        return out;
    }
    let mut k: u64 = 0;
    while k < count
        invariant
            k <= count,
            w == width as int,
            w == value@.len(),
            w > 0,
            count * w <= usize::MAX,
            out@.len() == k * w,
            forall|p: int| 0 <= p < out@.len() ==> #[trigger] out@[p] == value@[p % w],
        decreases count - k,
    {
        proof {
            assert((k + 1) * w == k * w + w) by (nonlinear_arith);
            assert((k + 1) * w <= count * w) by (nonlinear_arith)
                requires
                    k < count,
                    0 < w,
            ;
        }
        let mut b: usize = 0;
        while b < width
            invariant
                b <= width,
                w == width as int,
                w == value@.len(),
                w > 0,
                k * w + w <= usize::MAX,
                out@.len() == k * w + b,
                forall|p: int| 0 <= p < out@.len() ==> #[trigger] out@[p] == value@[p % w],
            decreases width - b,
        {
            proof {
                lemma_fundamental_div_mod_converse(k * w + b, w, k as int, b as int);
            }
            out.push(value[b]);
            b += 1;
        }
        k += 1;
    }
    proof {
        assert(out@ =~= repeated(value@, count as int));
    }
    out
}

/// Whether `bytes` is one or more copies of `value` and nothing else.
pub fn is_uniform(bytes: &[u8], value: &[u8]) -> (same: bool)
    ensures
        same == uniform(bytes@, value@),
{
    let width = value.len();
    let size = bytes.len();
    if width == 0 {
        return size == 0;
    }
    if size < width || size % width != 0 {
        return false;
    }
    let mut p: usize = 0;
    let mut b: usize = 0;
    while p < size
        invariant
            p <= size,
            size == bytes@.len(),
            width == value@.len(),
            0 < width,
            b < width,
            b == p % width,
            forall|q: int| 0 <= q < p ==> #[trigger] bytes@[q] == value@[q % (width as int)],
        decreases size - p,
    {
        if bytes[p] != value[b] {
            return false;
        }
        proof {
            lemma_next_residue(p as int, width as int);
        }
        p += 1;
        b += 1;
        if b == width {
            b = 0;
        }
    }
    true
}

/// The residue of the next position: one more, or zero at the end of an
/// element.
proof fn lemma_next_residue(p: int, width: int)
    requires
        0 <= p,
        0 < width,
    ensures
        (p + 1) % width == (if p % width + 1 == width {
            0
        } else {
            p % width + 1
        }),
{
    lemma_fundamental_div_mod(p, width);
    lemma_mod_pos_bound(p, width);
    let q = p / width;
    let r = p % width;
    if r + 1 == width {
        assert(p + 1 == (q + 1) * width + 0) by (nonlinear_arith)
            requires
                p == width * q + r,
                r + 1 == width,
        ;
        lemma_fundamental_div_mod_converse(p + 1, width, q + 1, 0);
    } else {
        assert(p + 1 == q * width + (r + 1)) by (nonlinear_arith)
            requires
                p == width * q + r,
        ;
        lemma_fundamental_div_mod_converse(p + 1, width, q, r + 1);
    }
}

/// Sets every element of the region `subset` of the buffer `base` to
/// `value`, which is one element wide.
pub fn fill(base: &mut Vec<u8>, shape: &[u64], subset: &ArraySubset, value: &[u8])
    requires
        fits(subset.origin(), subset.extent(), ints(shape@)),
        old(base)@.len() == product(ints(shape@)) * value@.len(),
    ensures
        final(base)@ == updated(
            old(base)@,
            ints(shape@),
            subset.origin(),
            subset.extent(),
            value@.len() as int,
            repeated(value@, subset.count()),
        ),
        final(base)@.len() == old(base)@.len(),
{
    let ghost w = value@.len() as int;
    let ghost pe = subset.count();
    let ghost ph = product(ints(shape@));
    proof {
        lemma_fits_product(subset.origin(), subset.extent(), ints(shape@));
        assert(0 <= pe * w <= ph * w) by (nonlinear_arith)
            requires
                0 <= pe <= ph,
                0 <= w,
        ;
    }
    let size: usize = base.len();
    let width: usize = value.len();
    if width == 0 {
        let data: Vec<u8> = Vec::new();
        proof {
            assert(pe * 0 == 0) by (nonlinear_arith);
            assert(data@ =~= repeated(value@, pe));
        }
        update(base, shape, subset, width, data.as_slice());
        return ;
    }
    proof {
        assert(pe <= pe * w) by (nonlinear_arith)
            requires
                0 <= pe,
                1 <= w,
        ;
    }
    let count: u64 = match subset.num_elements() {
        Some(n) => n,
        None => {
            assert(false);
            return ;
        },
    };
    let data = repeat(value, count);
    update(base, shape, subset, width, data.as_slice());
}

/// More elements than a buffer can hold bytes make a buffer of that many
/// bytes only where an element has no byte.
proof fn lemma_too_large(count: int, width: int, size: int)
    requires
        count > usize::MAX,
        0 <= width,
        0 <= size <= usize::MAX,
    ensures
        (size == count * width) == (width == 0 && size == 0),
{
    if width == 0 {
        assert(count * 0 == 0) by (nonlinear_arith);
    } else {
        assert(count * width >= count) by (nonlinear_arith)
            requires
                count > 0,
                width >= 1,
        ;
    }
}

/// Whether a buffer of `size` bytes is exactly the buffer of an array of
/// the given shape whose elements are `width` bytes wide.
pub fn holds(size: usize, shape: &[u64], width: usize) -> (exact: bool)
    ensures
        exact == (size == product(ints(shape@)) * width),
{
    match element_count(shape) {
        Some(count) => {
            if count > usize::MAX as u64 {
                proof {
                    lemma_too_large(count as int, width as int, size as int);
                }
                width == 0 && size == 0
            } else {
                match (count as usize).checked_mul(width) {
                    Some(bytes) => bytes == size,
                    None => false,
                }
            }
        },
        None => {
            proof {
                lemma_too_large(product(ints(shape@)), width as int, size as int);
            }
            width == 0 && size == 0
        },
    }
}

} // verus!
