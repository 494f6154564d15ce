//! Where the axes of a contraction come from: whatever axis an array has at
//! any step, with its label and its size, is an axis of one of the arrays
//! that were given, or one of the extra axes.

use vstd::prelude::*;
use crate::labels::{axis_pairs, is_axis, merged_order};
use crate::pairing::lemma_labels_follow_axes;
use crate::shape::{free_axes, lemma_free_axes, pick};
use crate::tencon::{
    first_repeated, label_ceiling, labels_have_room, lemma_first_repeated_upto, lemma_partner,
    normalized_orders, normalized_shapes, partner, traced,
};
use crate::tendot::{dot_shape, left_half, right_half};

verus! {

/// One of the given arrays has an axis with this label and this size.
pub open spec fn axis_given(
    shapes: Seq<Seq<usize>>,
    orders: Seq<Seq<i32>>,
    label: i32,
    size: usize,
) -> bool {
    exists|t: int, k: int|
        is_axis(orders, t, k) && #[trigger] orders[t][k] == label && shapes[t][k] == size
}

/// An axis with this label and this size is an axis of one of the given
/// arrays, or the label is larger than all of theirs.
pub open spec fn axis_known(
    shapes: Seq<Seq<usize>>,
    orders: Seq<Seq<i32>>,
    label: i32,
    size: usize,
) -> bool {
    (label > label_ceiling(orders) && size == 1) || axis_given(shapes, orders, label, size)
}

/// Axes with the same label have the same size, over all arrays.
pub open spec fn sizes_agree(shapes: Seq<Seq<usize>>, orders: Seq<Seq<i32>>) -> bool {
    forall|t: int, k: int, u: int, m: int|
        is_axis(orders, t, k) && is_axis(orders, u, m) && #[trigger] orders[t][k]
            == #[trigger] orders[u][m] ==> shapes[t][k] == shapes[u][m]
}

/// Every axis of an array with this shape and label order is known.
pub open spec fn axes_known(
    shapes: Seq<Seq<usize>>,
    orders: Seq<Seq<i32>>,
    shape: Seq<usize>,
    order: Seq<i32>,
) -> bool {
    forall|k: int|
        0 <= k < order.len() ==> axis_known(shapes, orders, #[trigger] order[k], shape[k])
}

/// Every axis of every array of a list is known.
pub open spec fn all_known(
    shapes: Seq<Seq<usize>>,
    orders: Seq<Seq<i32>>,
    now_shapes: Seq<Seq<usize>>,
    now_orders: Seq<Seq<i32>>,
) -> bool {
    forall|t: int|
        0 <= t < now_orders.len() ==> axes_known(shapes, orders, now_shapes[t], #[trigger] now_orders[t])
}

/// The arrays with their extra axes have known axes only.
pub proof fn lemma_normalized_known(shapes: Seq<Seq<usize>>, orders: Seq<Seq<i32>>)
    requires
        crate::labels::aligned(shapes, orders),
        labels_have_room(orders),
    ensures
        all_known(shapes, orders, normalized_shapes(shapes), normalized_orders(orders)),
{
    let lifted_shapes = normalized_shapes(shapes);
    let lifted_orders = normalized_orders(orders);
    let ceiling = label_ceiling(orders);
    let n = orders.len();
    crate::laws::lemma_label_ceiling_exists(orders);
    assert(i32::MIN <= ceiling) by {
        if exists|t: int, k: int| is_axis(orders, t, k) && #[trigger] orders[t][k] == ceiling {
        }
    }
    assert forall|t: int| 0 <= t < lifted_orders.len() implies axes_known(
        shapes,
        orders,
        lifted_shapes[t],
        #[trigger] lifted_orders[t],
    ) by {
        assert(shapes[t].len() == orders[t].len());
        assert forall|k: int| 0 <= k < lifted_orders[t].len() implies axis_known(
            shapes,
            orders,
            #[trigger] lifted_orders[t][k],
            lifted_shapes[t][k],
        ) by {
            if k < orders[t].len() {
                assert(is_axis(orders, t, k) && orders[t][k] == lifted_orders[t][k] && shapes[t][k]
                    == lifted_shapes[t][k]);
            } else {
                assert(n >= 2);
                assert(lifted_orders[t][k] > ceiling);
            }
        }
    }
}

/// Tracing leaves known axes only.
pub proof fn lemma_traced_known(
    shapes: Seq<Seq<usize>>,
    orders: Seq<Seq<i32>>,
    shape: Seq<usize>,
    order: Seq<i32>,
)
    requires
        shape.len() == order.len(),
        axes_known(shapes, orders, shape, order),
    ensures
        traced(shape, order) matches Ok(done) ==> axes_known(shapes, orders, done.shape, done.order),
    decreases order.len(),
{
    let p = first_repeated(order) as int;
    let q = partner(order, p);
    lemma_first_repeated_upto(order, order.len());
    if p < order.len() {
        lemma_partner(order);
        if shape[p] == shape[q] {
            let next_shape = shape.remove(q).remove(p);
            let next_order = order.remove(q).remove(p);
            assert forall|k: int| 0 <= k < next_order.len() implies axis_known(
                shapes,
                orders,
                #[trigger] next_order[k],
                next_shape[k],
            ) by {
                let from = if k < p {
                    k
                } else if k + 1 < q {
                    k + 1
                } else {
                    k + 2
                };
                assert(next_order[k] == order[from] && next_shape[k] == shape[from]);
            }
            lemma_traced_known(shapes, orders, next_shape, next_order);
        }
    }
}

/// A selection of the axes of an array with known axes has known axes.
pub proof fn lemma_picked_known(
    shapes: Seq<Seq<usize>>,
    orders: Seq<Seq<i32>>,
    shape: Seq<usize>,
    order: Seq<i32>,
    axes: Seq<usize>,
)
    requires
        shape.len() == order.len(),
        axes_known(shapes, orders, shape, order),
        forall|k: int| 0 <= k < axes.len() ==> (#[trigger] axes[k]) < order.len(),
    ensures
        axes_known(shapes, orders, pick(shape, axes), pick(order, axes)),
{
    assert forall|k: int| 0 <= k < pick(order, axes).len() implies axis_known(
        shapes,
        orders,
        #[trigger] pick(order, axes)[k],
        pick(shape, axes)[k],
    ) by {
        assert(axes[k] < order.len());
        assert(pick(order, axes)[k] == order[axes[k] as int]);
    }
}

/// The contraction of two arrays with known axes, neither of which carries
/// a label twice, has known axes.
pub proof fn lemma_merged_known(
    shapes: Seq<Seq<usize>>,
    orders: Seq<Seq<i32>>,
    a_shape: Seq<usize>,
    a: Seq<i32>,
    b_shape: Seq<usize>,
    b: Seq<i32>,
)
    requires
        a.no_duplicates(),
        b.no_duplicates(),
        a_shape.len() == a.len() <= usize::MAX,
        b_shape.len() == b.len() <= usize::MAX,
        axes_known(shapes, orders, a_shape, a),
        axes_known(shapes, orders, b_shape, b),
    ensures
        axes_known(
            shapes,
            orders,
            dot_shape(a_shape, b_shape, axis_pairs(a, b)),
            merged_order(a, b),
        ),
{
    lemma_labels_follow_axes(a_shape, a, b_shape, b);
    let left_free = free_axes(left_half(axis_pairs(a, b)), a.len());
    let right_free = free_axes(right_half(axis_pairs(a, b)), b.len());
    lemma_free_axes(left_half(axis_pairs(a, b)), a.len());
    lemma_free_axes(right_half(axis_pairs(a, b)), b.len());
    lemma_picked_known(shapes, orders, a_shape, a, left_free);
    lemma_picked_known(shapes, orders, b_shape, b, right_free);
    let shape = dot_shape(a_shape, b_shape, axis_pairs(a, b));
    let order = merged_order(a, b);
    assert forall|k: int| 0 <= k < order.len() implies axis_known(
        shapes,
        orders,
        #[trigger] order[k],
        shape[k],
    ) by {
        if k < left_free.len() {
            assert(order[k] == pick(a, left_free)[k]);
            assert(shape[k] == pick(a_shape, left_free)[k]);
        } else {
            assert(order[k] == pick(b, right_free)[k - left_free.len()]);
            assert(shape[k] == pick(b_shape, right_free)[k - left_free.len()]);
        }
    }
}

/// Where axes with the same label have the same size, two known axes with
/// one label have one size.
pub proof fn lemma_known_agree(
    shapes: Seq<Seq<usize>>,
    orders: Seq<Seq<i32>>,
    label: i32,
    first: usize,
    second: usize,
)
    requires
        sizes_agree(shapes, orders),
        axis_known(shapes, orders, label, first),
        axis_known(shapes, orders, label, second),
    ensures
        first == second,
{
    crate::laws::lemma_label_ceiling_exists(orders);
    if axis_given(shapes, orders, label, first) {
        let (t, k) = choose|t: int, k: int|
            is_axis(orders, t, k) && #[trigger] orders[t][k] == label && shapes[t][k] == first;
        assert(orders[t][k] <= label_ceiling(orders));
        let (u, m) = choose|u: int, m: int|
            is_axis(orders, u, m) && #[trigger] orders[u][m] == label && shapes[u][m] == second;
        assert(orders[t][k] == orders[u][m]);
    } else if axis_given(shapes, orders, label, second) {
        let (u, m) = choose|u: int, m: int|
            is_axis(orders, u, m) && #[trigger] orders[u][m] == label && shapes[u][m] == second;
        assert(orders[u][m] <= label_ceiling(orders));
    }
}

/// Where axes with the same label have the same size, every trace of an
/// array with known axes succeeds.
pub proof fn lemma_traced_succeeds(
    shapes: Seq<Seq<usize>>,
    orders: Seq<Seq<i32>>,
    shape: Seq<usize>,
    order: Seq<i32>,
)
    requires
        shape.len() == order.len(),
        sizes_agree(shapes, orders),
        axes_known(shapes, orders, shape, order),
    ensures
        traced(shape, order) is Ok,
    decreases order.len(),
{
    let p = first_repeated(order) as int;
    let q = partner(order, p);
    lemma_first_repeated_upto(order, order.len());
    if p < order.len() {
        lemma_partner(order);
        assert(axis_known(shapes, orders, order[p], shape[p]));
        assert(axis_known(shapes, orders, order[q], shape[q]));
        lemma_known_agree(shapes, orders, order[p], shape[p], shape[q]);
        let next_shape = shape.remove(q).remove(p);
        let next_order = order.remove(q).remove(p);
        assert forall|k: int| 0 <= k < next_order.len() implies axis_known(
            shapes,
            orders,
            #[trigger] next_order[k],
            next_shape[k],
        ) by {
            let from = if k < p {
                k
            } else if k + 1 < q {
                k + 1
            } else {
                k + 2
            };
            assert(next_order[k] == order[from] && next_shape[k] == shape[from]);
        }
        lemma_traced_succeeds(shapes, orders, next_shape, next_order);
    }
}

/// Where axes with the same label have the same size, the axes that two
/// arrays with known axes share match in size.
pub proof fn lemma_dot_succeeds(
    shapes: Seq<Seq<usize>>,
    orders: Seq<Seq<i32>>,
    a_shape: Seq<usize>,
    a: Seq<i32>,
    b_shape: Seq<usize>,
    b: Seq<i32>,
)
    requires
        a_shape.len() == a.len() <= usize::MAX,
        b_shape.len() == b.len() <= usize::MAX,
        sizes_agree(shapes, orders),
        axes_known(shapes, orders, a_shape, a),
        axes_known(shapes, orders, b_shape, b),
    ensures
        crate::tendot::first_mismatch(
            a_shape,
            b_shape,
            left_half(axis_pairs(a, b)),
            right_half(axis_pairs(a, b)),
            left_half(axis_pairs(a, b)).len(),
        ) == left_half(axis_pairs(a, b)).len(),
{
    let shared = crate::labels::shared_labels(a, b);
    let left = left_half(axis_pairs(a, b));
    let right = right_half(axis_pairs(a, b));
    crate::pairing::lemma_axis_pairs(a, b);
    crate::pairing::lemma_shared_labels_upto(a, b, a.len());
    assert forall|m: int| 0 <= m < shared.len() implies a.contains(#[trigger] shared[m])
        && b.contains(shared[m]) by {
        crate::labels::lemma_first_index(a, shared[m]);
    }
    crate::pairing::lemma_positions(a, shared);
    crate::pairing::lemma_positions(b, shared);
    assert forall|m: int| 0 <= m < left.len() implies a_shape[(#[trigger] left[m]) as int]
        == b_shape[right[m] as int] by {
        let x = left[m] as int;
        let y = right[m] as int;
        assert(a[x] == shared[m]);
        assert(right[m] < b.len() && b[y] == shared[m]);
        assert(axis_known(shapes, orders, a[x], a_shape[x]));
        assert(axis_known(shapes, orders, b[y], b_shape[y]));
        lemma_known_agree(shapes, orders, shared[m], a_shape[x], b_shape[y]);
    }
    crate::laws::lemma_no_mismatch(a_shape, b_shape, left, right, left.len());
}

} // verus!
