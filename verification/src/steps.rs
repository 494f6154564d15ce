//! What one contraction of a plan keeps: shapes and label orders stay in
//! step, every axis is a known axis, and labels leave two at a time, with
//! equal sizes.

use vstd::prelude::*;
use crate::counting::{
    lemma_distinct_parity, lemma_normalized_parity, lemma_pick_contains, lemma_reformatted_parity,
    lemma_total_one, lemma_total_update, lemma_traced_parity, same_parity,
};
use crate::labels::{aligned, axis_pairs, is_axis, merged_order, total_occurrences};
use crate::origin::{
    all_known, axes_known, axis_given, lemma_dot_succeeds, lemma_merged_known,
    lemma_normalized_known, lemma_traced_known, lemma_traced_succeeds, sizes_agree,
};
use crate::pairing::lemma_labels_follow_axes;
use crate::shape::pick;
use crate::sizes::{
    at_most_twice, has_sized_axis, lemma_first_mismatch_bound, lemma_merged_sized,
    lemma_normalized_sized, lemma_pick_sized, lemma_sized_parity, lemma_total_sized_bound,
    lemma_total_sized_one, lemma_total_sized_positive, lemma_total_sized_remove,
    lemma_total_sized_update, lemma_traced_sized, same_sized_parity, total_sized,
};
use crate::tencon::{
    is_descending, labels_have_room, lemma_normalized_aligned, lemma_traced, merged_pair,
    normalized_orders, normalized_shapes, precedes, traced,
};
use crate::tendot::{dot_shape, left_half, right_half};

verus! {

/// A pair names two different arrays of a list, neither with more axes than
/// a machine integer counts.
pub open spec fn is_pair_of(pair: Seq<usize>, orders: Seq<Seq<i32>>) -> bool {
    &&& pair.len() == 2
    &&& pair[0] < orders.len()
    &&& pair[1] < orders.len()
    &&& pair[0] != pair[1]
    &&& orders[pair[0] as int].len() <= usize::MAX
    &&& orders[pair[1] as int].len() <= usize::MAX
}

/// A list of arrays is in keeping with the arrays that were given: its
/// shapes and label orders are in step, every axis is a known axis, and
/// every label, alone and with every size, occurs an odd number of times
/// exactly if it did so in what was given.
pub open spec fn in_keeping(
    given_shapes: Seq<Seq<usize>>,
    given_orders: Seq<Seq<i32>>,
    shapes: Seq<Seq<usize>>,
    orders: Seq<Seq<i32>>,
) -> bool {
    &&& aligned(shapes, orders)
    &&& same_parity(given_orders, orders)
    &&& same_sized_parity(given_shapes, given_orders, shapes, orders)
    &&& all_known(given_shapes, given_orders, shapes, orders)
}

/// A shape with its labels is the result of contracting the given arrays:
/// the labels are those that occur an odd number of times among the given
/// arrays, largest first, and a label comes with a size exactly if it does
/// so an odd number of times among the given arrays. Where every label
/// occurs as often as its sign allows, these are the negative labels, each
/// with the size of its axis, and the label zero if it occurs an odd number
/// of times.
pub open spec fn is_result_of(
    given_shapes: Seq<Seq<usize>>,
    given_orders: Seq<Seq<i32>>,
    shape: Seq<usize>,
    labels: Seq<i32>,
) -> bool {
    &&& shape.len() == labels.len()
    &&& forall|k: int, m: int| 0 <= k < m < labels.len() ==> labels[k] > labels[m]
    &&& forall|label: i32|
        labels.contains(label) <==> (#[trigger] total_occurrences(given_orders, label)) % 2 == 1
    &&& forall|label: i32, size: usize|
        has_sized_axis(shape, labels, label, size) <==> (#[trigger] total_sized(
            given_shapes,
            given_orders,
            label,
            size,
        )) % 2 == 1
}

/// The arrays with their extra axes are in keeping with the arrays as they
/// were given.
pub proof fn lemma_normalized_in_keeping(shapes: Seq<Seq<usize>>, orders: Seq<Seq<i32>>)
    requires
        aligned(shapes, orders),
        labels_have_room(orders),
    ensures
        in_keeping(shapes, orders, normalized_shapes(shapes), normalized_orders(orders)),
{
    lemma_normalized_aligned(shapes, orders);
    lemma_normalized_known(shapes, orders);
    assert forall|label: i32|
        (#[trigger] total_occurrences(orders, label)) % 2 == total_occurrences(
            normalized_orders(orders),
            label,
        ) % 2 by {
        lemma_normalized_parity(orders, label);
    }
    assert forall|label: i32, size: usize|
        (#[trigger] total_sized(shapes, orders, label, size)) % 2 == total_sized(
            normalized_shapes(shapes),
            normalized_orders(orders),
            label,
            size,
        ) % 2 by {
        lemma_normalized_sized(shapes, orders, label, size);
    }
}

/// Where axes with the same label have the same size among the given
/// arrays, a contraction of two arrays with known axes succeeds.
pub proof fn lemma_merged_pair_succeeds(
    shapes: Seq<Seq<usize>>,
    orders: Seq<Seq<i32>>,
    pair: Seq<usize>,
    given_shapes: Seq<Seq<usize>>,
    given_orders: Seq<Seq<i32>>,
)
    requires
        aligned(shapes, orders),
        is_pair_of(pair, orders),
        all_known(given_shapes, given_orders, shapes, orders),
        sizes_agree(given_shapes, given_orders),
    ensures
        merged_pair(shapes, orders, pair) is Ok,
{
    let i = pair[0] as int;
    let j = pair[1] as int;
    assert(shapes[i].len() == orders[i].len());
    assert(shapes[j].len() == orders[j].len());
    assert(axes_known(given_shapes, given_orders, shapes[i], orders[i]));
    assert(axes_known(given_shapes, given_orders, shapes[j], orders[j]));
    lemma_traced_succeeds(given_shapes, given_orders, shapes[i], orders[i]);
    lemma_traced_succeeds(given_shapes, given_orders, shapes[j], orders[j]);
    lemma_traced_known(given_shapes, given_orders, shapes[i], orders[i]);
    lemma_traced_known(given_shapes, given_orders, shapes[j], orders[j]);
    lemma_traced(shapes[i], orders[i]);
    lemma_traced(shapes[j], orders[j]);
    let left = traced(shapes[i], orders[i]).unwrap();
    let right = traced(shapes[j], orders[j]).unwrap();
    lemma_dot_succeeds(
        given_shapes,
        given_orders,
        left.shape,
        left.order,
        right.shape,
        right.order,
    );
}

/// A contraction of two arrays that succeeds keeps shapes and label orders
/// in step and leaves one array less.
pub proof fn lemma_merged_pair_aligned(
    shapes: Seq<Seq<usize>>,
    orders: Seq<Seq<i32>>,
    pair: Seq<usize>,
)
    requires
        aligned(shapes, orders),
        is_pair_of(pair, orders),
    ensures
        merged_pair(shapes, orders, pair) matches Ok(merged) ==> aligned(
            merged.shapes,
            merged.orders,
        ) && merged.shapes.len() + 1 == shapes.len(),
{
    let i = pair[0] as int;
    let j = pair[1] as int;
    assert(shapes[i].len() == orders[i].len());
    assert(shapes[j].len() == orders[j].len());
    lemma_traced(shapes[i], orders[i]);
    lemma_traced(shapes[j], orders[j]);
    if merged_pair(shapes, orders, pair) is Ok {
        let merged = merged_pair(shapes, orders, pair).unwrap();
        let left = traced(shapes[i], orders[i]).unwrap();
        let right = traced(shapes[j], orders[j]).unwrap();
        lemma_labels_follow_axes(left.shape, left.order, right.shape, right.order);
        assert forall|t: int|
            0 <= t < merged.shapes.len() implies (#[trigger] merged.shapes[t]).len()
            == merged.orders[t].len() by {
            let u = if t < j {
                t
            } else {
                t + 1
            };
            assert(shapes[u].len() == orders[u].len());
        }
    }
}

/// A contraction of two arrays with known axes leaves known axes only.
pub proof fn lemma_merged_pair_known(
    shapes: Seq<Seq<usize>>,
    orders: Seq<Seq<i32>>,
    pair: Seq<usize>,
    given_shapes: Seq<Seq<usize>>,
    given_orders: Seq<Seq<i32>>,
)
    requires
        aligned(shapes, orders),
        is_pair_of(pair, orders),
        all_known(given_shapes, given_orders, shapes, orders),
    ensures
        merged_pair(shapes, orders, pair) matches Ok(merged) ==> all_known(
            given_shapes,
            given_orders,
            merged.shapes,
            merged.orders,
        ),
{
    let i = pair[0] as int;
    let j = pair[1] as int;
    assert(shapes[i].len() == orders[i].len());
    assert(shapes[j].len() == orders[j].len());
    assert(axes_known(given_shapes, given_orders, shapes[i], orders[i]));
    assert(axes_known(given_shapes, given_orders, shapes[j], orders[j]));
    lemma_traced(shapes[i], orders[i]);
    lemma_traced(shapes[j], orders[j]);
    lemma_traced_known(given_shapes, given_orders, shapes[i], orders[i]);
    lemma_traced_known(given_shapes, given_orders, shapes[j], orders[j]);
    if merged_pair(shapes, orders, pair) is Ok {
        let merged = merged_pair(shapes, orders, pair).unwrap();
        let left = traced(shapes[i], orders[i]).unwrap();
        let right = traced(shapes[j], orders[j]).unwrap();
        lemma_merged_known(
            given_shapes,
            given_orders,
            left.shape,
            left.order,
            right.shape,
            right.order,
        );
        assert forall|t: int| 0 <= t < merged.orders.len() implies axes_known(
            given_shapes,
            given_orders,
            merged.shapes[t],
            #[trigger] merged.orders[t],
        ) by {
            let u = if t < j {
                t
            } else {
                t + 1
            };
            if u != i {
                assert(merged.orders[t] == orders[u] && merged.shapes[t] == shapes[u]);
                assert(axes_known(given_shapes, given_orders, shapes[u], orders[u]));
            }
        }
    }
}

/// A contraction of two arrays takes the occurrences of a label two at a
/// time.
pub proof fn lemma_merged_pair_parity(
    shapes: Seq<Seq<usize>>,
    orders: Seq<Seq<i32>>,
    pair: Seq<usize>,
    label: i32,
)
    requires
        aligned(shapes, orders),
        is_pair_of(pair, orders),
    ensures
        merged_pair(shapes, orders, pair) matches Ok(merged) ==> total_occurrences(
            merged.orders,
            label,
        ) % 2 == total_occurrences(orders, label) % 2,
{
    let i = pair[0] as int;
    let j = pair[1] as int;
    assert(shapes[i].len() == orders[i].len());
    assert(shapes[j].len() == orders[j].len());
    lemma_traced(shapes[i], orders[i]);
    lemma_traced(shapes[j], orders[j]);
    if merged_pair(shapes, orders, pair) is Ok {
        let left = traced(shapes[i], orders[i]).unwrap();
        let right = traced(shapes[j], orders[j]).unwrap();
        let orders1 = orders.update(i, left.order);
        let orders2 = orders1.update(j, right.order);
        lemma_traced_parity(shapes[i], orders[i], label);
        lemma_total_update(orders, i, left.order, label);
        lemma_traced_parity(shapes[j], orders[j], label);
        lemma_total_update(orders1, j, right.order, label);
        lemma_reformatted_parity(orders2, i, j, label);
    }
}

/// A contraction of two arrays takes the axes of a label and a size two at
/// a time.
pub proof fn lemma_merged_pair_sized(
    shapes: Seq<Seq<usize>>,
    orders: Seq<Seq<i32>>,
    pair: Seq<usize>,
    label: i32,
    size: usize,
)
    requires
        aligned(shapes, orders),
        is_pair_of(pair, orders),
    ensures
        merged_pair(shapes, orders, pair) matches Ok(merged) ==> total_sized(
            merged.shapes,
            merged.orders,
            label,
            size,
        ) % 2 == total_sized(shapes, orders, label, size) % 2,
{
    let i = pair[0] as int;
    let j = pair[1] as int;
    assert(shapes[i].len() == orders[i].len());
    assert(shapes[j].len() == orders[j].len());
    lemma_traced(shapes[i], orders[i]);
    lemma_traced(shapes[j], orders[j]);
    if merged_pair(shapes, orders, pair) is Ok {
        let left = traced(shapes[i], orders[i]).unwrap();
        let right = traced(shapes[j], orders[j]).unwrap();
        let shapes1 = shapes.update(i, left.shape);
        let orders1 = orders.update(i, left.order);
        let shapes2 = shapes1.update(j, right.shape);
        let orders2 = orders1.update(j, right.order);
        let axes = axis_pairs(left.order, right.order);
        lemma_first_mismatch_bound(
            left.shape,
            right.shape,
            left_half(axes),
            right_half(axes),
            left_half(axes).len(),
        );
        lemma_traced_sized(shapes[i], orders[i], label, size);
        lemma_total_sized_update(shapes, orders, i, left.shape, left.order, label, size);
        lemma_traced_sized(shapes[j], orders[j], label, size);
        lemma_total_sized_update(shapes1, orders1, j, right.shape, right.order, label, size);
        lemma_merged_sized(left.shape, left.order, right.shape, right.order, label, size);
        let dot = dot_shape(left.shape, right.shape, axes);
        let merged_labels = merged_order(left.order, right.order);
        lemma_total_sized_update(shapes2, orders2, i, dot, merged_labels, label, size);
        lemma_total_sized_remove(
            shapes2.update(i, dot),
            orders2.update(i, merged_labels),
            j,
            label,
            size,
        );
    }
}

/// A trace fails over two axes of different sizes only.
pub proof fn lemma_traced_error(shape: Seq<usize>, order: Seq<i32>)
    ensures
        traced(shape, order) matches Err(error) ==> error is ShapeMismatch,
    decreases order.len(),
{
    let p = crate::tencon::first_repeated(order) as int;
    let q = crate::tencon::partner(order, p);
    if 0 <= p < q < order.len() && shape[p] == shape[q] {
        lemma_traced_error(shape.remove(q).remove(p), order.remove(q).remove(p));
    }
}

/// A contraction of two arrays fails over two axes of different sizes only.
pub proof fn lemma_merged_pair_error(
    shapes: Seq<Seq<usize>>,
    orders: Seq<Seq<i32>>,
    pair: Seq<usize>,
)
    ensures
        merged_pair(shapes, orders, pair) matches Err(error) ==> error is ShapeMismatch,
{
    let i = pair[0] as int;
    let j = pair[1] as int;
    lemma_traced_error(shapes[i], orders[i]);
    if traced(shapes[i], orders[i]) is Ok {
        let left = traced(shapes[i], orders[i]).unwrap();
        let shapes1 = shapes.update(i, left.shape);
        let orders1 = orders.update(i, left.order);
        lemma_traced_error(shapes1[j], orders1[j]);
    }
}

/// One contraction of a plan leaves the arrays in keeping with what was
/// given, and one array less. It fails over two axes of different sizes
/// only, and not at all where axes with the same label have the same size
/// among the given arrays.
pub proof fn lemma_merged_pair(
    shapes: Seq<Seq<usize>>,
    orders: Seq<Seq<i32>>,
    pair: Seq<usize>,
    given_shapes: Seq<Seq<usize>>,
    given_orders: Seq<Seq<i32>>,
)
    requires
        in_keeping(given_shapes, given_orders, shapes, orders),
        is_pair_of(pair, orders),
    ensures
        sizes_agree(given_shapes, given_orders) ==> merged_pair(shapes, orders, pair) is Ok,
        merged_pair(shapes, orders, pair) matches Err(error) ==> error is ShapeMismatch,
        merged_pair(shapes, orders, pair) matches Ok(merged) ==> {
            &&& in_keeping(given_shapes, given_orders, merged.shapes, merged.orders)
            &&& merged.shapes.len() + 1 == shapes.len()
        },
{
    if sizes_agree(given_shapes, given_orders) {
        lemma_merged_pair_succeeds(shapes, orders, pair, given_shapes, given_orders);
    }
    lemma_merged_pair_error(shapes, orders, pair);
    lemma_merged_pair_aligned(shapes, orders, pair);
    lemma_merged_pair_known(shapes, orders, pair, given_shapes, given_orders);
    if merged_pair(shapes, orders, pair) is Ok {
        let merged = merged_pair(shapes, orders, pair).unwrap();
        assert forall|label: i32|
            (#[trigger] total_occurrences(given_orders, label)) % 2 == total_occurrences(
                merged.orders,
                label,
            ) % 2 by {
            lemma_merged_pair_parity(shapes, orders, pair, label);
            assert(total_occurrences(given_orders, label) % 2 == total_occurrences(orders, label)
                % 2);
        }
        assert forall|label: i32, size: usize|
            (#[trigger] total_sized(given_shapes, given_orders, label, size)) % 2 == total_sized(
                merged.shapes,
                merged.orders,
                label,
                size,
            ) % 2 by {
            lemma_merged_pair_sized(shapes, orders, pair, label, size);
            assert(total_sized(given_shapes, given_orders, label, size) % 2 == total_sized(
                shapes,
                orders,
                label,
                size,
            ) % 2);
        }
    }
}

/// Where axes with the same label have the same size among the given
/// arrays, the traces of the array that is left succeed.
pub proof fn lemma_closing_succeeds(
    given_shapes: Seq<Seq<usize>>,
    given_orders: Seq<Seq<i32>>,
    shape: Seq<usize>,
    order: Seq<i32>,
)
    requires
        in_keeping(given_shapes, given_orders, seq![shape], seq![order]),
    ensures
        sizes_agree(given_shapes, given_orders) ==> traced(shape, order) is Ok,
        traced(shape, order) matches Err(error) ==> error is ShapeMismatch,
{
    let shapes = seq![shape];
    let orders = seq![order];
    assert(shapes[0] == shape && orders[0] == order);
    assert(shapes[0].len() == orders[0].len());
    assert(axes_known(given_shapes, given_orders, shapes[0], orders[0]));
    lemma_traced_error(shape, order);
    if sizes_agree(given_shapes, given_orders) {
        lemma_traced_succeeds(given_shapes, given_orders, shape, order);
    }
}

/// The array that is left, traced and with its axes in the order of their
/// labels, is the result of contracting the given arrays.
pub proof fn lemma_result(
    given_shapes: Seq<Seq<usize>>,
    given_orders: Seq<Seq<i32>>,
    shape: Seq<usize>,
    order: Seq<i32>,
    axes: Seq<usize>,
)
    requires
        in_keeping(given_shapes, given_orders, seq![shape], seq![order]),
        order.len() <= usize::MAX,
        traced(shape, order) matches Ok(done) && is_descending(done.order, axes),
    ensures
        is_result_of(
            given_shapes,
            given_orders,
            pick(traced(shape, order).unwrap().shape, axes),
            pick(traced(shape, order).unwrap().order, axes),
        ),
{
    let shapes = seq![shape];
    let orders = seq![order];
    assert(shapes[0] == shape && orders[0] == order);
    assert(shapes[0].len() == orders[0].len());
    let done = traced(shape, order).unwrap();
    lemma_traced(shape, order);
    let labels = pick(done.order, axes);
    let sizes = pick(done.shape, axes);
    assert forall|k: int, m: int| 0 <= k < m < labels.len() implies labels[k] > labels[m] by {
        assert(precedes(done.order, axes[k] as int, axes[m] as int));
        assert(axes[k] != axes[m]);
    }
    assert forall|label: i32|
        labels.contains(label) <==> (#[trigger] total_occurrences(given_orders, label)) % 2
            == 1 by {
        lemma_total_one(order, label);
        lemma_traced_parity(shape, order, label);
        lemma_distinct_parity(done.order, label);
        lemma_pick_contains(done.order, axes, label);
        assert(total_occurrences(given_orders, label) % 2 == total_occurrences(orders, label) % 2);
    }
    assert forall|label: i32, size: usize|
        has_sized_axis(sizes, labels, label, size) <==> (#[trigger] total_sized(
            given_shapes,
            given_orders,
            label,
            size,
        )) % 2 == 1 by {
        lemma_total_sized_one(shape, order, label, size);
        lemma_traced_sized(shape, order, label, size);
        lemma_sized_parity(done.shape, done.order, label, size);
        lemma_pick_sized(done.shape, done.order, axes, label, size);
        assert(total_sized(given_shapes, given_orders, label, size) % 2 == total_sized(
            shapes,
            orders,
            label,
            size,
        ) % 2);
    }
}

/// Where no label occurs more than twice and the contraction has a result,
/// axes with the same label have the same size among the given arrays.
pub proof fn lemma_result_agrees(
    given_shapes: Seq<Seq<usize>>,
    given_orders: Seq<Seq<i32>>,
    shape: Seq<usize>,
    labels: Seq<i32>,
)
    requires
        is_result_of(given_shapes, given_orders, shape, labels),
        at_most_twice(given_orders),
    ensures
        sizes_agree(given_shapes, given_orders),
{
    assert forall|t: int, k: int, u: int, m: int|
        is_axis(given_orders, t, k) && is_axis(given_orders, u, m) && #[trigger] given_orders[t][k]
            == #[trigger] given_orders[u][m] implies given_shapes[t][k] == given_shapes[u][m] by {
        let label = given_orders[t][k];
        let first = given_shapes[t][k];
        let second = given_shapes[u][m];
        if first != second {
            lemma_total_sized_bound(
                given_shapes,
                given_orders,
                label,
                first,
                second,
                given_orders.len(),
            );
            lemma_total_sized_bound(
                given_shapes,
                given_orders,
                label,
                second,
                first,
                given_orders.len(),
            );
            assert(total_occurrences(given_orders, label) <= 2);
            assert(total_sized(given_shapes, given_orders, label, first) == 1);
            assert(has_sized_axis(shape, labels, label, first));
            let at = choose|at: int|
                0 <= at < labels.len() && #[trigger] labels[at] == label && shape[at] == first;
            assert(labels.contains(label));
            assert(total_occurrences(given_orders, label) % 2 == 1);
        }
    }
}

/// Every axis of the result of a contraction is an axis of one of the given
/// arrays, with its label and its size.
pub proof fn lemma_result_axes(
    given_shapes: Seq<Seq<usize>>,
    given_orders: Seq<Seq<i32>>,
    shape: Seq<usize>,
    labels: Seq<i32>,
    at: int,
)
    requires
        is_result_of(given_shapes, given_orders, shape, labels),
        0 <= at < labels.len(),
    ensures
        axis_given(given_shapes, given_orders, labels[at], shape[at]),
{
    let label = labels[at];
    let size = shape[at];
    assert(has_sized_axis(shape, labels, label, size));
    assert(total_sized(given_shapes, given_orders, label, size) % 2 == 1);
    lemma_total_sized_positive(given_shapes, given_orders, label, size, given_orders.len());
    let (t, k) = choose|t: int, k: int|
        0 <= t < given_orders.len() && 0 <= k < given_orders[t].len()
            && #[trigger] given_orders[t][k] == label && given_shapes[t][k] == size;
    assert(is_axis(given_orders, t, k) && given_orders[t][k] == label && given_shapes[t][k] == size);
}

} // verus!
