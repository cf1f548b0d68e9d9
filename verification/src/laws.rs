//! What holds of storing and retrieving together.

use vstd::prelude::*;
use vstd::arithmetic::div_mod::lemma_fundamental_div_mod_converse;
use crate::buffer::{extracted, law_disjoint_updates_commute, law_extract_updated,
    lemma_extract_repeated, lemma_extract_whole, lemma_extracted_len, lemma_fits_product,
    lemma_uniform_repeated, repeated, uniform, updated};
use crate::chunk::ChunkRepresentation;
use crate::layout::{ints, product};
use crate::codec::{data_type_size, key_is_valid};
use crate::pipeline::{built, cache_after, described, lemma_built_fails, ChunksItem,
    ChunksItemRaw, CodecPipelineImpl, ItemModel};
use crate::selection::covered;
use crate::store::{resolved, CodecPipelineStore};
use crate::region::{covers, disjoint, rank};
use crate::retrieval::{held, mismatch};
use crate::storing::{input_bytes, whole};

verus! {

/// The store with the value of one key replaced: the key holds `value`, or
/// is absent where `value` is `None`.
pub open spec fn after(
    store: Map<Seq<char>, Seq<u8>>,
    key: Seq<char>,
    value: Option<Seq<u8>>,
) -> Map<Seq<char>, Seq<u8>> {
    match value {
        Some(bytes) => store.insert(key, bytes),
        None => store.remove(key),
    }
}

/// What the store holds under a key.
pub open spec fn found(store: Map<Seq<char>, Seq<u8>>, key: Seq<char>) -> Option<Seq<u8>> {
    if store.contains_key(key) {
        Some(store[key])
    } else {
        None
    }
}

/// The chain decodes what it encoded these bytes to back to these bytes.
pub open spec fn lossless(
    pipeline: CodecPipelineImpl,
    chunk: ChunkRepresentation,
    bytes: Seq<u8>,
) -> bool {
    match pipeline.encoded(chunk, bytes) {
        Some(encoded) => pipeline.decoded(chunk, encoded) == Some(bytes),
        None => true,
    }
}

/// After an action the store holds under the key what the action left
/// there, and under every other key what it held before.
pub proof fn law_action_changes_one_key(
    store: Map<Seq<char>, Seq<u8>>,
    key: Seq<char>,
    value: Option<Seq<u8>>,
    other: Seq<char>,
)
    ensures
        found(after(store, key, value), key) == value,
        other != key ==> found(after(store, key, value), other) == found(store, other),
{
}

/// A chunk that the store does not hold reads as its fill value: after the
/// retrieval, every element of the item's region of the buffer is the fill
/// value.
pub proof fn law_absent_chunk_reads_fill(
    pipeline: CodecPipelineImpl,
    item: ChunksItem,
    output: Seq<u8>,
    shape: Seq<u64>,
)
    requires
        mismatch(item, output.len(), shape) is None,
        item.subset.count() == item.chunk_subset.count(),
    ensures
        pipeline.retrieved(item, None, output, shape) is Ok,
        extracted(
            pipeline.retrieved(item, None, output, shape)->Ok_0,
            ints(shape),
            item.subset.origin(),
            item.subset.extent(),
            item.representation.width(),
        ) == repeated(item.representation.fill(), item.subset.count()),
{
    let chunk = item.representation;
    let w = chunk.width();
    let dims = ints(chunk.dims());
    lemma_extract_repeated(chunk.fill(), dims, item.chunk_subset.origin(), item.chunk_subset.extent());
    let region = repeated(chunk.fill(), item.chunk_subset.count());
    lemma_fits_product(item.chunk_subset.origin(), item.chunk_subset.extent(), dims);
    assert(0 <= item.chunk_subset.count() * w) by (nonlinear_arith)
        requires
            0 <= item.chunk_subset.count(),
            0 <= w,
    ;
    law_extract_updated(
        output,
        ints(shape),
        item.subset.origin(),
        item.subset.extent(),
        w,
        region,
    );
}

/// Storing and then retrieving over the same regions gives back what was
/// stored: after a store that succeeded, a retrieval from what the store
/// then holds succeeds, and the item's region of the buffer retrieved into
/// holds the bytes of that region of the buffer stored from. The chain is
/// taken to decode the chunk it encoded back to the same bytes.
pub proof fn law_store_then_retrieve(
    pipeline: CodecPipelineImpl,
    item: ChunksItem,
    current: Option<Seq<u8>>,
    input: Seq<u8>,
    output: Seq<u8>,
    shape: Seq<u64>,
)
    requires
        item.representation.well_formed(),
        pipeline.stored(item, current, input, shape) is Ok,
        item.subset.count() == item.chunk_subset.count(),
        output.len() == input.len(),
        lossless(
            pipeline,
            item.representation,
            pipeline.merged(
                item.representation,
                current,
                input_bytes(item, input, shape),
                item.chunk_subset.origin(),
                item.chunk_subset.extent(),
            )->Ok_0,
        ),
    ensures
        pipeline.retrieved(
            item,
            pipeline.stored(item, current, input, shape)->Ok_0,
            output,
            shape,
        ) is Ok,
        extracted(
            pipeline.retrieved(
                item,
                pipeline.stored(item, current, input, shape)->Ok_0,
                output,
                shape,
            )->Ok_0,
            ints(shape),
            item.subset.origin(),
            item.subset.extent(),
            item.representation.width(),
        ) == extracted(
            input,
            ints(shape),
            item.subset.origin(),
            item.subset.extent(),
            item.representation.width(),
        ),
{
    let chunk = item.representation;
    let w = chunk.width();
    let dims = ints(chunk.dims());
    let co = item.chunk_subset.origin();
    let ce = item.chunk_subset.extent();
    let so = item.subset.origin();
    let se = item.subset.extent();
    let data = input_bytes(item, input, shape);
    let taken = extracted(input, ints(shape), so, se, w);
    lemma_extracted_len(input, ints(shape), so, se, w);
    lemma_fits_product(co, ce, dims);
    assert(0 <= chunk.count() * w) by (nonlinear_arith)
        requires
            0 <= chunk.count(),
            0 <= w,
    ;
    // What is stored is the region of the buffer, also where the buffer is
    // a scalar.
    if so.len() == 0 {
        assert(ints(shape) =~= Seq::<int>::empty());
        assert(product(ints(shape)) == 1);
        assert(se =~= ints(shape));
        assert(so =~= crate::buffer::zero_origin(0));
        assert(product(se) == 1);
        assert(1 * w == w) by (nonlinear_arith);
        assert(1 * input.len() == input.len()) by (nonlinear_arith);
        lemma_extract_whole(input, ints(shape), w);
        assert forall|p: int| 0 <= p < input.len() implies #[trigger] data[p] == input[p] by {
            lemma_fundamental_div_mod_converse(p, w, 0, p);
        }
        assert(data =~= input);
    }
    assert(data == taken);
    let merged = pipeline.merged(chunk, current, data, co, ce)->Ok_0;
    if whole(co, ce, dims) {
        lemma_extract_whole(merged, dims, w);
    } else {
        let before = pipeline.chunk_bytes(chunk, current)->Ok_0;
        law_extract_updated(before, dims, co, ce, w, data);
    }
    assert(merged.len() == chunk.count() * w);
    assert(extracted(merged, dims, co, ce, w) == data);
    let left = pipeline.stored(item, current, input, shape)->Ok_0;
    if uniform(merged, chunk.fill()) {
        lemma_uniform_repeated(merged, chunk.fill(), chunk.count());
    }
    assert(pipeline.chunk_bytes(chunk, left) == Ok::<Seq<u8>, crate::error::PipelineError>(merged));
    law_extract_updated(output, ints(shape), so, se, w, data);
}

/// Storing the fill value over a whole chunk erases the key of the chunk,
/// whatever the store held: the key is absent afterwards, and the chunk
/// then reads as its fill value.
pub proof fn law_fill_over_whole_chunk_erases(
    pipeline: CodecPipelineImpl,
    item: ChunksItem,
    current: Option<Seq<u8>>,
    input: Seq<u8>,
    shape: Seq<u64>,
    store: Map<Seq<char>, Seq<u8>>,
)
    requires
        mismatch(item, input.len(), shape) is None,
        item.subset.origin().len() == 0 || item.subset.count() == item.chunk_subset.count(),
        whole(
            item.chunk_subset.origin(),
            item.chunk_subset.extent(),
            ints(item.representation.dims()),
        ),
        uniform(input_bytes(item, input, shape), item.representation.fill()),
    ensures
        pipeline.stored(item, current, input, shape) == Ok::<
            Option<Seq<u8>>,
            crate::error::PipelineError,
        >(None),
        !after(store, item.key@, None).contains_key(item.key@),
        pipeline.chunk_bytes(item.representation, found(after(store, item.key@, None), item.key@))
            == Ok::<Seq<u8>, crate::error::PipelineError>(
            repeated(item.representation.fill(), item.representation.count()),
        ),
{
    let chunk = item.representation;
    let w = chunk.width();
    let so = item.subset.origin();
    let se = item.subset.extent();
    let data = input_bytes(item, input, shape);
    lemma_fits_product(
        item.chunk_subset.origin(),
        item.chunk_subset.extent(),
        ints(chunk.dims()),
    );
    if so.len() == 0 {
        assert(ints(shape) =~= Seq::<int>::empty());
        assert(product(ints(shape)) == 1);
        assert(1 * w == w) by (nonlinear_arith);
        assert(0 <= item.chunk_subset.count() * w) by (nonlinear_arith)
            requires
                0 <= item.chunk_subset.count(),
                0 <= w,
        ;
    } else {
        lemma_extracted_len(input, ints(shape), so, se, w);
    }
    assert(data.len() == item.chunk_subset.count() * w);
}

/// Two items whose regions of the buffer share no element can be retrieved
/// in either order: the buffer is the same afterwards.
pub proof fn law_retrieval_order(
    pipeline: CodecPipelineImpl,
    a: ChunksItem,
    stored_a: Option<Seq<u8>>,
    b: ChunksItem,
    stored_b: Option<Seq<u8>>,
    output: Seq<u8>,
    shape: Seq<u64>,
)
    requires
        disjoint(a.subset.origin(), a.subset.extent(), b.subset.origin(), b.subset.extent()),
        pipeline.retrieved(a, stored_a, output, shape) is Ok,
        pipeline.retrieved(b, stored_b, output, shape) is Ok,
    ensures
        pipeline.retrieved(b, stored_b, pipeline.retrieved(a, stored_a, output, shape)->Ok_0, shape)
            is Ok,
        pipeline.retrieved(b, stored_b, pipeline.retrieved(a, stored_a, output, shape)->Ok_0, shape)
            == pipeline.retrieved(
            a,
            stored_a,
            pipeline.retrieved(b, stored_b, output, shape)->Ok_0,
            shape,
        ),
{
    let wa = a.representation.width();
    let wb = b.representation.width();
    let ra = pipeline.region_bytes(a, stored_a)->Ok_0;
    let rb = pipeline.region_bytes(b, stored_b)->Ok_0;
    let first = pipeline.retrieved(a, stored_a, output, shape)->Ok_0;
    let second = pipeline.retrieved(b, stored_b, output, shape)->Ok_0;
    assert(first.len() == output.len());
    assert(second.len() == output.len());
    let ab = updated(first, ints(shape), b.subset.origin(), b.subset.extent(), wb, rb);
    let ba = updated(second, ints(shape), a.subset.origin(), a.subset.extent(), wa, ra);
    if wa == wb {
        law_disjoint_updates_commute(
            output,
            ints(shape),
            wa,
            a.subset.origin(),
            a.subset.extent(),
            ra,
            b.subset.origin(),
            b.subset.extent(),
            rb,
        );
    } else {
        let p = product(ints(shape));
        assert(p == 0) by (nonlinear_arith)
            requires
                p * wa == p * wb,
                wa != wb,
        ;
        assert(p * wa == 0) by (nonlinear_arith)
            requires
                p == 0,
        ;
        assert(ab =~= ba);
    }
}

/// The subsets of the buffer that the items of a batch address share no
/// element, taken two by two.
pub open spec fn pairwise_disjoint(work: Seq<(ChunksItem, Option<Vec<u8>>)>) -> bool {
    forall|j: int, k: int|
        0 <= j < k < work.len() ==> disjoint(
            (#[trigger] work[j]).0.subset.origin(),
            work[j].0.subset.extent(),
            (#[trigger] work[k]).0.subset.origin(),
            work[k].0.subset.extent(),
        )
}

/// The byte at position `p` of a buffer of the given shape belongs to the
/// item's region of the buffer.
pub open spec fn item_covers(item: ChunksItem, p: int, shape: Seq<u64>) -> bool {
    covers(
        p,
        item.subset.origin().push(0),
        item.subset.extent().push(item.representation.width()),
        ints(shape).push(item.representation.width()),
    )
}

/// The number that the byte at position `p` of the buffer has among the
/// bytes of the item's region.
pub open spec fn item_rank(item: ChunksItem, p: int, shape: Seq<u64>) -> int {
    rank(
        p,
        item.subset.origin().push(0),
        item.subset.extent().push(item.representation.width()),
        ints(shape).push(item.representation.width()),
    )
}

/// No byte of a buffer belongs to the regions of two items of a batch.
proof fn lemma_one_item_covers(
    work: Seq<(ChunksItem, Option<Vec<u8>>)>,
    size: nat,
    shape: Seq<u64>,
    j: int,
    k: int,
    p: int,
)
    requires
        pairwise_disjoint(work),
        0 <= j < work.len(),
        0 <= k < work.len(),
        j != k,
        0 <= p < size,
        mismatch(work[j].0, size, shape) is None,
        mismatch(work[k].0, size, shape) is None,
    ensures
        !(item_covers(work[j].0, p, shape) && item_covers(work[k].0, p, shape)),
{
    let a = work[j].0;
    let b = work[k].0;
    let wa = a.representation.width();
    let wb = b.representation.width();
    if wa == wb {
        if j < k {
            crate::region::lemma_wide_disjoint(
                a.subset.origin(),
                a.subset.extent(),
                b.subset.origin(),
                b.subset.extent(),
                wa,
            );
            let c = crate::layout::unravel(p, ints(shape).push(wa));
            assert(!(crate::region::within(c, a.subset.origin().push(0), a.subset.extent().push(wa))
                && crate::region::within(c, b.subset.origin().push(0), b.subset.extent().push(wa))));
        } else {
            crate::region::lemma_wide_disjoint(
                b.subset.origin(),
                b.subset.extent(),
                a.subset.origin(),
                a.subset.extent(),
                wa,
            );
            let c = crate::layout::unravel(p, ints(shape).push(wa));
            assert(!(crate::region::within(c, b.subset.origin().push(0), b.subset.extent().push(wa))
                && crate::region::within(c, a.subset.origin().push(0), a.subset.extent().push(wa))));
        }
    } else {
        let n = product(ints(shape));
        assert(n == 0) by (nonlinear_arith)
            requires
                n * wa == n * wb,
                wa != wb,
        ;
        assert(n * wa == 0) by (nonlinear_arith)
            requires
                n == 0,
        ;
    }
}

/// What a byte of the buffer holds after the first `m` items of a batch
/// with disjoint regions have been retrieved: the byte of the region of the
/// item that it belongs to, or what it held before where it belongs to
/// none.
pub proof fn lemma_batch_bytes(
    pipeline: CodecPipelineImpl,
    work: Seq<(ChunksItem, Option<Vec<u8>>)>,
    output: Seq<u8>,
    shape: Seq<u64>,
    m: int,
    p: int,
)
    requires
        0 <= m <= work.len(),
        pipeline.retrieved_all(work, output, shape, m).1 is None,
        pairwise_disjoint(work),
        0 <= p < output.len(),
    ensures
        pipeline.retrieved_all(work, output, shape, m).0.len() == output.len(),
        forall|j: int| 0 <= j < m ==> mismatch(#[trigger] work[j].0, output.len(), shape) is None,
        (forall|j: int| 0 <= j < m ==> !item_covers(#[trigger] work[j].0, p, shape))
            ==> pipeline.retrieved_all(work, output, shape, m).0[p] == output[p],
        forall|i: int|
            0 <= i < m && item_covers(#[trigger] work[i].0, p, shape) ==> pipeline.region_bytes(
                work[i].0,
                held(work[i].1),
            ) is Ok && pipeline.retrieved_all(work, output, shape, m).0[p] == pipeline.region_bytes(
                work[i].0,
                held(work[i].1),
            )->Ok_0[item_rank(work[i].0, p, shape)],
    decreases m,
{
    if m > 0 {
        lemma_batch_bytes(pipeline, work, output, shape, m - 1, p);
        let before = pipeline.retrieved_all(work, output, shape, m - 1).0;
        let last = work[m - 1].0;
        assert(pipeline.retrieved(last, held(work[m - 1].1), before, shape) is Ok);
        assert forall|i: int|
            0 <= i < m - 1 && item_covers(#[trigger] work[i].0, p, shape) implies !item_covers(
            last,
            p,
            shape,
        ) by {
            lemma_one_item_covers(work, output.len(), shape, i, m - 1, p);
        }
    }
}

/// After a batch of items with disjoint regions has been retrieved, the
/// region of each item holds the bytes of the item's region of its chunk:
/// no later item has changed them.
pub proof fn law_batch_regions(
    pipeline: CodecPipelineImpl,
    work: Seq<(ChunksItem, Option<Vec<u8>>)>,
    output: Seq<u8>,
    shape: Seq<u64>,
    i: int,
)
    requires
        pipeline.retrieved_all(work, output, shape, work.len() as int).1 is None,
        pairwise_disjoint(work),
        0 <= i < work.len(),
    ensures
        pipeline.region_bytes(work[i].0, held(work[i].1)) is Ok,
        extracted(
            pipeline.retrieved_all(work, output, shape, work.len() as int).0,
            ints(shape),
            work[i].0.subset.origin(),
            work[i].0.subset.extent(),
            work[i].0.representation.width(),
        ) == pipeline.region_bytes(work[i].0, held(work[i].1))->Ok_0,
{
    let n = work.len() as int;
    let item = work[i].0;
    let w = item.representation.width();
    let so = item.subset.origin();
    let se = item.subset.extent();
    let last = pipeline.retrieved_all(work, output, shape, n).0;
    lemma_batch_success(pipeline, work, output, shape, i + 1, n);
    let at = pipeline.retrieved_all(work, output, shape, i).0;
    assert(pipeline.retrieved(item, held(work[i].1), at, shape) is Ok);
    let region = pipeline.region_bytes(item, held(work[i].1))->Ok_0;
    lemma_extracted_len(
        pipeline.chunk_bytes(item.representation, held(work[i].1))->Ok_0,
        ints(item.representation.dims()),
        item.chunk_subset.origin(),
        item.chunk_subset.extent(),
        w,
    );
    lemma_extracted_len(last, ints(shape), so, se, w);
    let read = extracted(last, ints(shape), so, se, w);
    assert(read.len() == region.len());
    crate::buffer::lemma_wide_fits(so, se, ints(shape), w);
    crate::buffer::lemma_wide_product(se, w);
    crate::buffer::lemma_wide_product(ints(shape), w);
    assert forall|k: int| 0 <= k < read.len() implies read[k] == region[k] by {
        let o = crate::region::offset(k, so.push(0), se.push(w), ints(shape).push(w));
        crate::region::lemma_offset(k, so.push(0), se.push(w), ints(shape).push(w));
        lemma_batch_len(pipeline, work, output, shape, i);
        lemma_batch_bytes(pipeline, work, output, shape, n, o);
        assert(item_covers(work[i].0, o, shape));
    }
    assert(read =~= region);
}

/// A batch that has succeeded has succeeded at every item before.
pub proof fn lemma_batch_success(
    pipeline: CodecPipelineImpl,
    work: Seq<(ChunksItem, Option<Vec<u8>>)>,
    output: Seq<u8>,
    shape: Seq<u64>,
    m: int,
    n: int,
)
    requires
        0 <= m <= n,
        pipeline.retrieved_all(work, output, shape, n).1 is None,
    ensures
        pipeline.retrieved_all(work, output, shape, m).1 is None,
    decreases n - m,
{
    if m < n {
        lemma_batch_success(pipeline, work, output, shape, m + 1, n);
    }
}

/// Retrieval keeps the length of the buffer.
pub proof fn lemma_batch_len(
    pipeline: CodecPipelineImpl,
    work: Seq<(ChunksItem, Option<Vec<u8>>)>,
    output: Seq<u8>,
    shape: Seq<u64>,
    m: int,
)
    ensures
        pipeline.retrieved_all(work, output, shape, m).0.len() == output.len(),
    decreases m,
{
    if m > 0 {
        lemma_batch_len(pipeline, work, output, shape, m - 1);
    }
}

/// In a batch of items with disjoint regions, the region of an item whose
/// chunk the store does not hold reads as the fill value once the batch has
/// been retrieved.
pub proof fn law_batch_absent_chunk_reads_fill(
    pipeline: CodecPipelineImpl,
    work: Seq<(ChunksItem, Option<Vec<u8>>)>,
    output: Seq<u8>,
    shape: Seq<u64>,
    i: int,
)
    requires
        pipeline.retrieved_all(work, output, shape, work.len() as int).1 is None,
        pairwise_disjoint(work),
        0 <= i < work.len(),
        work[i].1 is None,
    ensures
        extracted(
            pipeline.retrieved_all(work, output, shape, work.len() as int).0,
            ints(shape),
            work[i].0.subset.origin(),
            work[i].0.subset.extent(),
            work[i].0.representation.width(),
        ) == repeated(work[i].0.representation.fill(), work[i].0.subset.count()),
{
    let item = work[i].0;
    law_batch_regions(pipeline, work, output, shape, i);
    lemma_batch_success(pipeline, work, output, shape, i + 1, work.len() as int);
    let at = pipeline.retrieved_all(work, output, shape, i).0;
    assert(pipeline.retrieved(item, held(work[i].1), at, shape) is Ok);
    lemma_extract_repeated(
        item.representation.fill(),
        ints(item.representation.dims()),
        item.chunk_subset.origin(),
        item.chunk_subset.extent(),
    );
}

/// The order of the items of a batch with disjoint regions does not change
/// the buffer: two batches of the same items, each a rearrangement of the
/// other, leave the same bytes.
pub proof fn law_batch_order(
    pipeline: CodecPipelineImpl,
    one: Seq<(ChunksItem, Option<Vec<u8>>)>,
    other: Seq<(ChunksItem, Option<Vec<u8>>)>,
    there: Seq<int>,
    back: Seq<int>,
    output: Seq<u8>,
    shape: Seq<u64>,
)
    requires
        one.len() == other.len(),
        there.len() == one.len(),
        back.len() == one.len(),
        forall|k: int| 0 <= k < one.len() ==> 0 <= #[trigger] there[k] < one.len() && other[k]
            == one[there[k]],
        forall|i: int| 0 <= i < one.len() ==> 0 <= #[trigger] back[i] < one.len() && one[i]
            == other[back[i]],
        pairwise_disjoint(one),
        pairwise_disjoint(other),
        pipeline.retrieved_all(one, output, shape, one.len() as int).1 is None,
        pipeline.retrieved_all(other, output, shape, other.len() as int).1 is None,
    ensures
        pipeline.retrieved_all(one, output, shape, one.len() as int).0 == pipeline.retrieved_all(
            other,
            output,
            shape,
            other.len() as int,
        ).0,
{
    let n = one.len() as int;
    let a = pipeline.retrieved_all(one, output, shape, n).0;
    let b = pipeline.retrieved_all(other, output, shape, n).0;
    lemma_batch_len(pipeline, one, output, shape, n);
    lemma_batch_len(pipeline, other, output, shape, n);
    assert forall|p: int| 0 <= p < output.len() implies a[p] == b[p] by {
        lemma_batch_bytes(pipeline, one, output, shape, n, p);
        lemma_batch_bytes(pipeline, other, output, shape, n, p);
        if exists|i: int| 0 <= i < n && item_covers(#[trigger] one[i].0, p, shape) {
            let i = choose|i: int| 0 <= i < n && item_covers(#[trigger] one[i].0, p, shape);
            let k = back[i];
            assert(other[k] == one[i]);
            assert(item_covers(other[k].0, p, shape));
        } else {
            assert forall|k: int| 0 <= k < n implies !item_covers(
                #[trigger] other[k].0,
                p,
                shape,
            ) by {
                assert(other[k] == one[there[k]]);
            }
        }
    }
    assert(a =~= b);
}

/// What a batch that was stored leaves under each key is what storing the
/// item alone leaves there.
pub proof fn lemma_stored_each(
    pipeline: CodecPipelineImpl,
    work: Seq<(ChunksItem, Option<Vec<u8>>)>,
    input: Seq<u8>,
    shape: Seq<u64>,
    n: int,
    j: int,
)
    requires
        0 <= j < n <= work.len(),
        pipeline.stored_all(work, input, shape, n) is Ok,
    ensures
        pipeline.stored_all(work, input, shape, n)->Ok_0.len() == n,
        pipeline.stored(work[j].0, held(work[j].1), input, shape) == Ok::<
            Option<Seq<u8>>,
            crate::error::PipelineError,
        >(pipeline.stored_all(work, input, shape, n)->Ok_0[j]),
    decreases n,
{
    lemma_stored_len(pipeline, work, input, shape, n - 1);
    if j < n - 1 {
        lemma_stored_each(pipeline, work, input, shape, n - 1, j);
    }
}

/// A batch that was stored leaves one value for each item.
pub proof fn lemma_stored_len(
    pipeline: CodecPipelineImpl,
    work: Seq<(ChunksItem, Option<Vec<u8>>)>,
    input: Seq<u8>,
    shape: Seq<u64>,
    n: int,
)
    requires
        0 <= n,
        pipeline.stored_all(work, input, shape, n) is Ok,
    ensures
        pipeline.stored_all(work, input, shape, n)->Ok_0.len() == n,
    decreases n,
{
    if n > 0 {
        lemma_stored_len(pipeline, work, input, shape, n - 1);
    }
}

/// In a batch that was stored, an item that writes the fill value over its
/// whole chunk erases the key of the chunk.
pub proof fn law_batch_fill_erases(
    pipeline: CodecPipelineImpl,
    work: Seq<(ChunksItem, Option<Vec<u8>>)>,
    input: Seq<u8>,
    shape: Seq<u64>,
    i: int,
)
    requires
        pipeline.stored_all(work, input, shape, work.len() as int) is Ok,
        0 <= i < work.len(),
        whole(
            work[i].0.chunk_subset.origin(),
            work[i].0.chunk_subset.extent(),
            ints(work[i].0.representation.dims()),
        ),
        uniform(input_bytes(work[i].0, input, shape), work[i].0.representation.fill()),
    ensures
        pipeline.stored_all(work, input, shape, work.len() as int)->Ok_0[i] is None,
{
    lemma_stored_each(pipeline, work, input, shape, work.len() as int, i);
    law_fill_over_whole_chunk_erases(
        pipeline,
        work[i].0,
        held(work[i].1),
        input,
        shape,
        Map::empty(),
    );
}

/// What the items of a stored batch ask of the chain for the round trip:
/// every representation is well formed, both regions of every item hold
/// the same number of elements, and the chain decodes each chunk that it
/// encoded back to the same bytes.
pub open spec fn round_trips(
    pipeline: CodecPipelineImpl,
    work: Seq<(ChunksItem, Option<Vec<u8>>)>,
    input: Seq<u8>,
    shape: Seq<u64>,
) -> bool {
    forall|j: int|
        0 <= j < work.len() ==> {
            let item = (#[trigger] work[j]).0;
            &&& item.representation.well_formed()
            &&& item.subset.count() == item.chunk_subset.count()
            &&& lossless(
                pipeline,
                item.representation,
                pipeline.merged(
                    item.representation,
                    held(work[j].1),
                    input_bytes(item, input, shape),
                    item.chunk_subset.origin(),
                    item.chunk_subset.extent(),
                )->Ok_0,
            )
        }
}

/// The batch `read` retrieves the items that the batch `written` stored,
/// each from what the store holds under its key afterwards.
pub open spec fn reads_back(
    pipeline: CodecPipelineImpl,
    written: Seq<(ChunksItem, Option<Vec<u8>>)>,
    read: Seq<(ChunksItem, Option<Vec<u8>>)>,
    input: Seq<u8>,
    shape: Seq<u64>,
) -> bool {
    &&& read.len() == written.len()
    &&& pipeline.stored_all(written, input, shape, written.len() as int) is Ok
    &&& forall|j: int|
        0 <= j < read.len() ==> (#[trigger] read[j]).0 == written[j].0 && held(read[j].1)
            == pipeline.stored_all(written, input, shape, written.len() as int)->Ok_0[j]
}

/// Retrieving what a batch stored succeeds, item after item.
pub proof fn lemma_batch_reads_back(
    pipeline: CodecPipelineImpl,
    written: Seq<(ChunksItem, Option<Vec<u8>>)>,
    read: Seq<(ChunksItem, Option<Vec<u8>>)>,
    input: Seq<u8>,
    output: Seq<u8>,
    shape: Seq<u64>,
    m: int,
)
    requires
        reads_back(pipeline, written, read, input, shape),
        round_trips(pipeline, written, input, shape),
        output.len() == input.len(),
        0 <= m <= read.len(),
    ensures
        pipeline.retrieved_all(read, output, shape, m).1 is None,
    decreases m,
{
    if m > 0 {
        lemma_batch_reads_back(pipeline, written, read, input, output, shape, m - 1);
        lemma_batch_len(pipeline, read, output, shape, m - 1);
        lemma_stored_each(pipeline, written, input, shape, written.len() as int, m - 1);
        let before = pipeline.retrieved_all(read, output, shape, m - 1).0;
        assert(read[m - 1].0 == written[m - 1].0);
        law_store_then_retrieve(
            pipeline,
            written[m - 1].0,
            held(written[m - 1].1),
            input,
            before,
            shape,
        );
    }
}

/// Storing a batch and then retrieving it gives back what was stored: where
/// the items have disjoint regions of the buffer and each is retrieved from
/// what the store holds under its key after the store, the retrieval
/// succeeds and the region of every item holds the bytes of that region of
/// the buffer stored from. The chain is taken to decode each chunk that it
/// encoded back to the same bytes.
pub proof fn law_batch_store_then_retrieve(
    pipeline: CodecPipelineImpl,
    written: Seq<(ChunksItem, Option<Vec<u8>>)>,
    read: Seq<(ChunksItem, Option<Vec<u8>>)>,
    input: Seq<u8>,
    output: Seq<u8>,
    shape: Seq<u64>,
    i: int,
)
    requires
        reads_back(pipeline, written, read, input, shape),
        round_trips(pipeline, written, input, shape),
        pairwise_disjoint(read),
        output.len() == input.len(),
        0 <= i < read.len(),
    ensures
        pipeline.retrieved_all(read, output, shape, read.len() as int).1 is None,
        extracted(
            pipeline.retrieved_all(read, output, shape, read.len() as int).0,
            ints(shape),
            read[i].0.subset.origin(),
            read[i].0.subset.extent(),
            read[i].0.representation.width(),
        ) == extracted(
            input,
            ints(shape),
            read[i].0.subset.origin(),
            read[i].0.subset.extent(),
            read[i].0.representation.width(),
        ),
{
    let n = read.len() as int;
    let item = read[i].0;
    let w = item.representation.width();
    lemma_batch_reads_back(pipeline, written, read, input, output, shape, n);
    law_batch_regions(pipeline, read, output, shape, i);
    lemma_stored_each(pipeline, written, input, shape, n, i);
    assert(item == written[i].0);
    law_store_then_retrieve(pipeline, item, held(written[i].1), input, output, shape);
    let region = pipeline.region_bytes(item, held(read[i].1))->Ok_0;
    lemma_extracted_len(
        pipeline.chunk_bytes(item.representation, held(read[i].1))->Ok_0,
        ints(item.representation.dims()),
        item.chunk_subset.origin(),
        item.chunk_subset.extent(),
        w,
    );
    law_extract_updated(output, ints(shape), item.subset.origin(), item.subset.extent(), w, region);
}

/// A description whose data type is not known fails the whole batch, and
/// with `UnsupportedDataType` where nothing fails before the data type is
/// looked at: the descriptions before it give units of work, and its own
/// address, key and selections are in order.
pub proof fn law_unknown_data_type_fails_batch(
    cached: Option<CodecPipelineStore>,
    raws: Seq<ChunksItemRaw>,
    shape: Seq<u64>,
    k: int,
)
    requires
        0 <= k < raws.len(),
        data_type_size(raws[k].2@) is None,
    ensures
        built(cached, raws, shape, raws.len() as int) is Err,
        built(cached, raws, shape, k) is Ok && resolved(cache_after(cached, raws, k), raws[k].0@)
            is Ok && key_is_valid(resolved(cache_after(cached, raws, k), raws[k].0@)->Ok_0.1)
            && covered(raws[k].5@, raws[k].1@) is Ok && covered(raws[k].4@, shape) is Ok ==> built(
            cached,
            raws,
            shape,
            raws.len() as int,
        ) == Err::<Seq<ItemModel>, crate::error::PipelineError>(
            crate::error::PipelineError::UnsupportedDataType,
        ),
{
    if built(cached, raws, shape, k) is Err {
        lemma_built_fails(cached, raws, shape, k, raws.len() as int);
    } else {
        assert(described(cache_after(cached, raws, k), raws[k], shape) is Err);
        lemma_built_fails(cached, raws, shape, k + 1, raws.len() as int);
    }
}

} // verus!
