//! Row-major layout: how the coordinates of a dense array map to positions
//! in its flat buffer, and back.

use vstd::prelude::*;
use vstd::arithmetic::div_mod::lemma_fundamental_div_mod_converse;
use vstd::arithmetic::div_mod::lemma_fundamental_div_mod;
use vstd::arithmetic::div_mod::lemma_mod_pos_bound;

verus! {

/// The number of elements of an array of the given shape. An array without
/// axes holds one element.
pub open spec fn product(shape: Seq<int>) -> int
    decreases shape.len(),
{
    if shape.len() == 0 {
        1
    } else {
        product(shape.drop_last()) * shape.last()
    }
}

/// Every axis has at least one element.
pub open spec fn positive(shape: Seq<int>) -> bool {
    forall|i: int| 0 <= i < shape.len() ==> 0 < #[trigger] shape[i]
}

/// `coords` names an element of an array of the given shape.
pub open spec fn inside(coords: Seq<int>, shape: Seq<int>) -> bool {
    &&& coords.len() == shape.len()
    &&& forall|i: int| 0 <= i < shape.len() ==> 0 <= #[trigger] coords[i] < shape[i]
}

/// The position of the element at `coords` in the flat buffer: the last axis
/// runs fastest.
pub open spec fn ravel(coords: Seq<int>, shape: Seq<int>) -> int
    decreases shape.len(),
{
    if shape.len() == 0 || coords.len() == 0 {
        0
    } else {
        ravel(coords.drop_last(), shape.drop_last()) * shape.last() + coords.last()
    }
}

/// The coordinates of the element at position `k` of the flat buffer.
pub open spec fn unravel(k: int, shape: Seq<int>) -> Seq<int>
    decreases shape.len(),
{
    if shape.len() == 0 {
        Seq::empty()
    } else {
        unravel(k / shape.last(), shape.drop_last()).push(k % shape.last())
    }
}

/// A shape without an empty axis holds at least one element.
pub proof fn lemma_product_positive(shape: Seq<int>)
    requires
        positive(shape),
    ensures
        0 < product(shape),
    decreases shape.len(),
{
    if shape.len() > 0 {
        let front = shape.drop_last();
        assert forall|i: int| 0 <= i < front.len() implies 0 < #[trigger] front[i] by {
            assert(front[i] == shape[i]);
        }
        lemma_product_positive(front);
        let p = product(front);
        let n = shape.last();
        assert(0 < p * n) by (nonlinear_arith)
            requires
                0 < p,
                0 < n,
        ;
    }
}

/// A shape with an empty axis holds no element.
pub proof fn lemma_product_zero(shape: Seq<int>, axis: int)
    requires
        0 <= axis < shape.len(),
        shape[axis] == 0,
    ensures
        product(shape) == 0,
    decreases shape.len(),
{
    let front = shape.drop_last();
    if axis == shape.len() - 1 {
        assert(product(front) * 0 == 0) by (nonlinear_arith);
    } else {
        assert(front[axis] == shape[axis]);
        lemma_product_zero(front, axis);
        assert(0 * shape.last() == 0) by (nonlinear_arith);
    }
}

/// The position of an element lies within the buffer.
pub proof fn lemma_ravel_bounds(coords: Seq<int>, shape: Seq<int>)
    requires
        inside(coords, shape),
    ensures
        0 <= ravel(coords, shape) < product(shape),
    decreases shape.len(),
{
    if shape.len() > 0 {
        let front = shape.drop_last();
        let head = coords.drop_last();
        assert forall|i: int| 0 <= i < front.len() implies 0 <= #[trigger] head[i] < front[i] by {
            assert(head[i] == coords[i]);
            assert(front[i] == shape[i]);
        }
        lemma_ravel_bounds(head, front);
        let r = ravel(head, front);
        let p = product(front);
        let n = shape.last();
        let x = coords.last();
        assert(0 <= x < n) by {
            assert(coords[shape.len() - 1] == x);
        }
        assert(0 <= r * n + x < p * n) by (nonlinear_arith)
            requires
                0 <= r < p,
                0 <= x < n,
        ;
    }
}

/// Every position of the buffer is the position of the element at its
/// coordinates.
pub proof fn lemma_unravel(k: int, shape: Seq<int>)
    requires
        positive(shape),
        0 <= k < product(shape),
    ensures
        inside(unravel(k, shape), shape),
        ravel(unravel(k, shape), shape) == k,
    decreases shape.len(),
{
    if shape.len() > 0 {
        let front = shape.drop_last();
        let n = shape.last();
        assert(0 < n) by {
            assert(shape[shape.len() - 1] == n);
        }
        assert forall|i: int| 0 <= i < front.len() implies 0 < #[trigger] front[i] by {
            assert(front[i] == shape[i]);
        }
        let q = k / n;
        let r = k % n;
        lemma_fundamental_div_mod(k, n);
        lemma_mod_pos_bound(k, n);
        let p = product(front);
        assert(0 <= q < p) by (nonlinear_arith)
            requires
                k == n * q + r,
                0 <= r < n,
                0 <= k < p * n,
        ;
        lemma_unravel(q, front);
        let u = unravel(q, front);
        let full = u.push(r);
        assert(full.drop_last() =~= u);
        assert(full.last() == r);
        assert forall|i: int| 0 <= i < shape.len() implies 0 <= #[trigger] full[i] < shape[i] by {
            if i < shape.len() - 1 {
                assert(full[i] == u[i]);
                assert(front[i] == shape[i]);
            }
        }
        assert(ravel(full, shape) == ravel(u, front) * n + r);
        assert(q * n + r == k) by (nonlinear_arith)
            requires
                k == n * q + r,
        ;
    }
}

/// The coordinates of an element are those of its position.
pub proof fn lemma_ravel_unravel(coords: Seq<int>, shape: Seq<int>)
    requires
        inside(coords, shape),
    ensures
        unravel(ravel(coords, shape), shape) =~= coords,
    decreases shape.len(),
{
    if shape.len() > 0 {
        let front = shape.drop_last();
        let head = coords.drop_last();
        assert forall|i: int| 0 <= i < front.len() implies 0 <= #[trigger] head[i] < front[i] by {
            assert(head[i] == coords[i]);
            assert(front[i] == shape[i]);
        }
        lemma_ravel_unravel(head, front);
        let r = ravel(head, front);
        let n = shape.last();
        let x = coords.last();
        assert(0 <= x < n) by {
            assert(coords[shape.len() - 1] == x);
        }
        lemma_fundamental_div_mod_converse(r * n + x, n, r, x);
        assert(unravel(r * n + x, shape) == unravel(r, front).push(x));
        assert(head.push(x) =~= coords);
    }
}

/// A shape or a position of machine integers, as mathematical ones.
pub open spec fn ints(values: Seq<u64>) -> Seq<int> {
    Seq::new(values.len(), |i: int| values[i] as int)
}

/// The first `n` axes of a shape without an empty axis hold no more elements
/// than the whole.
pub proof fn lemma_prefix_product(shape: Seq<int>, n: int)
    requires
        positive(shape),
        0 <= n <= shape.len(),
    ensures
        0 < product(shape.subrange(0, n)) <= product(shape),
    decreases shape.len() - n,
{
    let head = shape.subrange(0, n);
    assert forall|i: int| 0 <= i < head.len() implies 0 < #[trigger] head[i] by {
        assert(head[i] == shape[i]);
    }
    lemma_product_positive(head);
    if n == shape.len() {
        assert(head =~= shape);
    } else {
        lemma_prefix_product(shape, n + 1);
        let next = shape.subrange(0, n + 1);
        assert(next.drop_last() =~= head);
        assert(next.last() == shape[n]);
        let p = product(head);
        let d = shape[n];
        assert(p <= p * d) by (nonlinear_arith)
            requires
                0 < p,
                0 < d,
        ;
    }
}

/// Whether some axis of the shape is empty.
pub fn has_empty_axis(shape: &[u64]) -> (found: bool)
    ensures
        found == !positive(ints(shape@)),
{
    let mut i: usize = 0;
    while i < shape.len()
        invariant
            i <= shape.len(),
            forall|j: int| 0 <= j < i ==> 0 < #[trigger] ints(shape@)[j],
        decreases shape.len() - i,
    {
        if shape[i] == 0 {
            assert(ints(shape@)[i as int] == 0);
            return true;
        }
        i += 1;
    }
    false
}

/// The number of elements of an array of the given shape, where that number
/// is a `u64`.
pub fn element_count(shape: &[u64]) -> (count: Option<u64>)
    ensures
        match count {
            Some(n) => n == product(ints(shape@)),
            None => product(ints(shape@)) > u64::MAX,
        },
{
    let ghost dims = ints(shape@);
    if has_empty_axis(shape) {
        proof {
            let axis = choose|i: int| 0 <= i < dims.len() && !(0 < #[trigger] dims[i]);
            lemma_product_zero(dims, axis);
        }
        return Some(0);
    }
    let mut total: u64 = 1;
    let mut i: usize = 0;
    proof {
        assert(dims.subrange(0, 0) =~= Seq::<int>::empty());
    }
    while i < shape.len()
        invariant
            i <= shape.len(),
            dims == ints(shape@),
            positive(dims),
            total == product(dims.subrange(0, i as int)),
        decreases shape.len() - i,
    {
        proof {
            lemma_prefix_product(dims, i as int + 1);
            let next = dims.subrange(0, i as int + 1);
            assert(next.drop_last() =~= dims.subrange(0, i as int));
            assert(next.last() == shape@[i as int] as int);
        }
        match total.checked_mul(shape[i]) {
            Some(next) => {
                total = next;
            },
            None => {
                return None;
            },
        }
        i += 1;
    }
    proof {
        assert(dims.subrange(0, shape.len() as int) =~= dims);
    }
    Some(total)
}

} // verus!
