//! How many axes carry a label with a given size, and why a contraction that
//! succeeds changes that by two at a time.

use vstd::prelude::*;
use crate::labels::{
    axis_pairs, lemma_occurrences_contains, lemma_occurrences_distinct, merged_order,
    occurrences_upto, shared_labels, total_occurrences, total_occurrences_upto, unshared,
    unshared_upto,
};
use crate::pairing::{
    lemma_axis_pairs, lemma_distinct_first_index, lemma_labels_follow_axes,
    lemma_shared_labels_upto,
};
use crate::shape::{is_axis_order, pick};
use crate::tencon::{
    first_repeated, label_ceiling, lemma_first_repeated_upto, lemma_partner, normalized_orders,
    normalized_shapes, partner, traced,
};
use crate::tendot::{dot_shape, first_mismatch, left_half, right_half};

verus! {

/// How many of the first `n` axes of an array carry `label` and have the
/// size `size`.
pub open spec fn sized_upto(shape: Seq<usize>, order: Seq<i32>, label: i32, size: usize, n: nat)
    -> nat
    decreases n,
{
    if n == 0 {
        0
    } else if order[n - 1] == label && shape[n - 1] == size {
        sized_upto(shape, order, label, size, (n - 1) as nat) + 1
    } else {
        sized_upto(shape, order, label, size, (n - 1) as nat)
    }
}

/// How many axes of an array carry `label` and have the size `size`.
pub open spec fn sized(shape: Seq<usize>, order: Seq<i32>, label: i32, size: usize) -> nat {
    sized_upto(shape, order, label, size, order.len())
}

/// How many axes of the first `n` arrays carry `label` and have the size
/// `size`.
pub open spec fn total_sized_upto(
    shapes: Seq<Seq<usize>>,
    orders: Seq<Seq<i32>>,
    label: i32,
    size: usize,
    n: nat,
) -> nat
    decreases n,
{
    if n == 0 {
        0
    } else {
        total_sized_upto(shapes, orders, label, size, (n - 1) as nat) + sized(
            shapes[n - 1],
            orders[n - 1],
            label,
            size,
        )
    }
}

/// How many axes of all arrays carry `label` and have the size `size`.
pub open spec fn total_sized(
    shapes: Seq<Seq<usize>>,
    orders: Seq<Seq<i32>>,
    label: i32,
    size: usize,
) -> nat {
    total_sized_upto(shapes, orders, label, size, orders.len())
}

/// Every label occurs with every size in one list of arrays an odd number
/// of times exactly if it does so in the other.
pub open spec fn same_sized_parity(
    first_shapes: Seq<Seq<usize>>,
    first: Seq<Seq<i32>>,
    second_shapes: Seq<Seq<usize>>,
    second: Seq<Seq<i32>>,
) -> bool {
    forall|label: i32, size: usize|
        (#[trigger] total_sized(first_shapes, first, label, size)) % 2 == total_sized(
            second_shapes,
            second,
            label,
            size,
        ) % 2
}

/// No label occurs more than twice.
pub open spec fn at_most_twice(orders: Seq<Seq<i32>>) -> bool {
    forall|label: i32| #[trigger] total_occurrences(orders, label) <= 2
}

/// An array has an axis that carries `label` and has the size `size`.
pub open spec fn has_sized_axis(shape: Seq<usize>, order: Seq<i32>, label: i32, size: usize)
    -> bool {
    exists|k: int| 0 <= k < order.len() && #[trigger] order[k] == label && shape[k] == size
}

proof fn lemma_sized_prefix(
    a_shape: Seq<usize>,
    a: Seq<i32>,
    b_shape: Seq<usize>,
    b: Seq<i32>,
    label: i32,
    size: usize,
    n: nat,
)
    requires
        forall|k: int| 0 <= k < n ==> a[k] == b[k] && a_shape[k] == b_shape[k],
    ensures
        sized_upto(a_shape, a, label, size, n) == sized_upto(b_shape, b, label, size, n),
    decreases n,
{
    if n > 0 {
        lemma_sized_prefix(a_shape, a, b_shape, b, label, size, (n - 1) as nat);
    }
}

/// Axes of a label and a size are axes of that label, and there are some
/// exactly if the array has one.
pub proof fn lemma_sized_bound(shape: Seq<usize>, order: Seq<i32>, label: i32, size: usize, n: nat)
    requires
        n <= order.len(),
    ensures
        sized_upto(shape, order, label, size, n) <= occurrences_upto(order, label, n),
        sized_upto(shape, order, label, size, n) > 0 <==> exists|k: int|
            0 <= k < n && #[trigger] order[k] == label && shape[k] == size,
    decreases n,
{
    if n > 0 {
        lemma_sized_bound(shape, order, label, size, (n - 1) as nat);
        if sized_upto(shape, order, label, size, (n - 1) as nat) > 0 {
            let k = choose|k: int|
                0 <= k < n - 1 && #[trigger] order[k] == label && shape[k] == size;
            assert(0 <= k < n && order[k] == label && shape[k] == size);
        } else if order[n - 1] == label && shape[n - 1] == size {
            let k = n - 1;
            assert(0 <= k < n && order[k] == label && shape[k] == size);
        }
    }
}

/// Axes of one label with two different sizes are different axes.
pub proof fn lemma_sized_apart(
    shape: Seq<usize>,
    order: Seq<i32>,
    label: i32,
    first: usize,
    second: usize,
    n: nat,
)
    requires
        first != second,
    ensures
        sized_upto(shape, order, label, first, n) + sized_upto(shape, order, label, second, n)
            <= occurrences_upto(order, label, n),
    decreases n,
{
    if n > 0 {
        lemma_sized_apart(shape, order, label, first, second, (n - 1) as nat);
    }
}

/// Counts add up over two arrays put end to end.
pub proof fn lemma_sized_concat(
    a_shape: Seq<usize>,
    a: Seq<i32>,
    b_shape: Seq<usize>,
    b: Seq<i32>,
    label: i32,
    size: usize,
)
    requires
        a_shape.len() == a.len(),
        b_shape.len() == b.len(),
    ensures
        sized(a_shape + b_shape, a + b, label, size) == sized(a_shape, a, label, size) + sized(
            b_shape,
            b,
            label,
            size,
        ),
{
    lemma_sized_concat_upto(a_shape, a, b_shape, b, label, size, b.len());
}

proof fn lemma_sized_concat_upto(
    a_shape: Seq<usize>,
    a: Seq<i32>,
    b_shape: Seq<usize>,
    b: Seq<i32>,
    label: i32,
    size: usize,
    n: nat,
)
    requires
        a_shape.len() == a.len(),
        b_shape.len() == b.len(),
        n <= b.len(),
    ensures
        sized_upto(a_shape + b_shape, a + b, label, size, a.len() + n) == sized(
            a_shape,
            a,
            label,
            size,
        ) + sized_upto(b_shape, b, label, size, n),
    decreases n,
{
    if n == 0 {
        lemma_sized_prefix(a_shape + b_shape, a + b, a_shape, a, label, size, a.len());
    } else {
        lemma_sized_concat_upto(a_shape, a, b_shape, b, label, size, (n - 1) as nat);
        assert((a + b)[a.len() + n - 1] == b[n - 1]);
        assert((a_shape + b_shape)[a.len() + n - 1] == b_shape[n - 1]);
    }
}

/// An array of one axis.
proof fn lemma_sized_one(extent: usize, entry: i32, label: i32, size: usize)
    ensures
        sized(seq![extent], seq![entry], label, size) == if entry == label && extent == size {
            1nat
        } else {
            0nat
        },
{
    assert(seq![entry][0] == entry);
    assert(seq![extent][0] == extent);
    assert(sized_upto(seq![extent], seq![entry], label, size, 0) == 0);
}

/// An array with one more axis at its end.
pub proof fn lemma_sized_push(
    shape: Seq<usize>,
    extent: usize,
    order: Seq<i32>,
    entry: i32,
    label: i32,
    size: usize,
)
    requires
        shape.len() == order.len(),
    ensures
        sized(shape.push(extent), order.push(entry), label, size) == sized(
            shape,
            order,
            label,
            size,
        ) + if entry == label && extent == size {
            1nat
        } else {
            0nat
        },
{
    lemma_sized_one(extent, entry, label, size);
    lemma_sized_concat(shape, order, seq![extent], seq![entry], label, size);
    assert(order.push(entry) =~= order + seq![entry]);
    assert(shape.push(extent) =~= shape + seq![extent]);
}

/// Taking an axis out of an array takes one from the count of its label and
/// size.
pub proof fn lemma_sized_remove(
    shape: Seq<usize>,
    order: Seq<i32>,
    at: int,
    label: i32,
    size: usize,
)
    requires
        shape.len() == order.len(),
        0 <= at < order.len(),
    ensures
        sized(shape.remove(at), order.remove(at), label, size) + (if order[at] == label
            && shape[at] == size {
            1nat
        } else {
            0nat
        }) == sized(shape, order, label, size),
{
    let head = order.take(at);
    let tail = order.skip(at + 1);
    let head_shape = shape.take(at);
    let tail_shape = shape.skip(at + 1);
    assert(order =~= head.push(order[at]) + tail);
    assert(shape =~= head_shape.push(shape[at]) + tail_shape);
    assert(order.remove(at) =~= head + tail);
    assert(shape.remove(at) =~= head_shape + tail_shape);
    lemma_sized_concat(
        head_shape.push(shape[at]),
        head.push(order[at]),
        tail_shape,
        tail,
        label,
        size,
    );
    lemma_sized_concat(head_shape, head, tail_shape, tail, label, size);
    lemma_sized_push(head_shape, shape[at], head, order[at], label, size);
}

/// A trace that succeeds takes the axes of a label and a size two at a time.
pub proof fn lemma_traced_sized(shape: Seq<usize>, order: Seq<i32>, label: i32, size: usize)
    requires
        shape.len() == order.len(),
    ensures
        traced(shape, order) matches Ok(done) ==> sized(done.shape, done.order, label, size) % 2
            == sized(shape, order, label, size) % 2,
    decreases order.len(),
{
    let p = first_repeated(order) as int;
    let q = partner(order, p);
    lemma_first_repeated_upto(order, order.len());
    if p < order.len() {
        lemma_partner(order);
        if shape[p] == shape[q] {
            let once = order.remove(q);
            let once_shape = shape.remove(q);
            lemma_sized_remove(shape, order, q, label, size);
            assert(once[p] == order[p] && once_shape[p] == shape[p]);
            lemma_sized_remove(once_shape, once, p, label, size);
            lemma_traced_sized(once_shape.remove(p), once.remove(p), label, size);
        }
    }
}

proof fn lemma_total_sized_prefix(
    a_shapes: Seq<Seq<usize>>,
    a: Seq<Seq<i32>>,
    b_shapes: Seq<Seq<usize>>,
    b: Seq<Seq<i32>>,
    label: i32,
    size: usize,
    n: nat,
)
    requires
        forall|t: int| 0 <= t < n ==> a[t] == b[t] && a_shapes[t] == b_shapes[t],
    ensures
        total_sized_upto(a_shapes, a, label, size, n) == total_sized_upto(b_shapes, b, label, size, n),
    decreases n,
{
    if n > 0 {
        lemma_total_sized_prefix(a_shapes, a, b_shapes, b, label, size, (n - 1) as nat);
    }
}

/// Counts add up over two lists of arrays.
pub proof fn lemma_total_sized_concat(
    a_shapes: Seq<Seq<usize>>,
    a: Seq<Seq<i32>>,
    b_shapes: Seq<Seq<usize>>,
    b: Seq<Seq<i32>>,
    label: i32,
    size: usize,
)
    requires
        a_shapes.len() == a.len(),
        b_shapes.len() == b.len(),
    ensures
        total_sized(a_shapes + b_shapes, a + b, label, size) == total_sized(
            a_shapes,
            a,
            label,
            size,
        ) + total_sized(b_shapes, b, label, size),
{
    lemma_total_sized_concat_upto(a_shapes, a, b_shapes, b, label, size, b.len());
}

proof fn lemma_total_sized_concat_upto(
    a_shapes: Seq<Seq<usize>>,
    a: Seq<Seq<i32>>,
    b_shapes: Seq<Seq<usize>>,
    b: Seq<Seq<i32>>,
    label: i32,
    size: usize,
    n: nat,
)
    requires
        a_shapes.len() == a.len(),
        b_shapes.len() == b.len(),
        n <= b.len(),
    ensures
        total_sized_upto(a_shapes + b_shapes, a + b, label, size, a.len() + n) == total_sized(
            a_shapes,
            a,
            label,
            size,
        ) + total_sized_upto(b_shapes, b, label, size, n),
    decreases n,
{
    if n == 0 {
        lemma_total_sized_prefix(a_shapes + b_shapes, a + b, a_shapes, a, label, size, a.len());
    } else {
        lemma_total_sized_concat_upto(a_shapes, a, b_shapes, b, label, size, (n - 1) as nat);
        assert((a + b)[a.len() + n - 1] == b[n - 1]);
        assert((a_shapes + b_shapes)[a.len() + n - 1] == b_shapes[n - 1]);
    }
}

/// A list of one array holds what that array holds.
pub proof fn lemma_total_sized_one(shape: Seq<usize>, order: Seq<i32>, label: i32, size: usize)
    ensures
        total_sized(seq![shape], seq![order], label, size) == sized(shape, order, label, size),
{
    assert(seq![order][0] == order);
    assert(seq![shape][0] == shape);
    assert(total_sized_upto(seq![shape], seq![order], label, size, 0) == 0);
}

/// Replacing one array of a list changes the count by what the two arrays
/// differ in.
pub proof fn lemma_total_sized_update(
    shapes: Seq<Seq<usize>>,
    orders: Seq<Seq<i32>>,
    at: int,
    shape: Seq<usize>,
    order: Seq<i32>,
    label: i32,
    size: usize,
)
    requires
        shapes.len() == orders.len(),
        0 <= at < orders.len(),
    ensures
        total_sized(shapes.update(at, shape), orders.update(at, order), label, size) + sized(
            shapes[at],
            orders[at],
            label,
            size,
        ) == total_sized(shapes, orders, label, size) + sized(shape, order, label, size),
{
    let head = orders.take(at);
    let tail = orders.skip(at + 1);
    let head_shapes = shapes.take(at);
    let tail_shapes = shapes.skip(at + 1);
    assert(orders =~= head + seq![orders[at]] + tail);
    assert(shapes =~= head_shapes + seq![shapes[at]] + tail_shapes);
    assert(orders.update(at, order) =~= head + seq![order] + tail);
    assert(shapes.update(at, shape) =~= head_shapes + seq![shape] + tail_shapes);
    lemma_total_sized_concat(
        head_shapes + seq![shapes[at]],
        head + seq![orders[at]],
        tail_shapes,
        tail,
        label,
        size,
    );
    lemma_total_sized_concat(head_shapes, head, seq![shapes[at]], seq![orders[at]], label, size);
    lemma_total_sized_concat(
        head_shapes + seq![shape],
        head + seq![order],
        tail_shapes,
        tail,
        label,
        size,
    );
    lemma_total_sized_concat(head_shapes, head, seq![shape], seq![order], label, size);
    lemma_total_sized_one(shapes[at], orders[at], label, size);
    lemma_total_sized_one(shape, order, label, size);
}

/// Taking one array out of a list takes its count.
pub proof fn lemma_total_sized_remove(
    shapes: Seq<Seq<usize>>,
    orders: Seq<Seq<i32>>,
    at: int,
    label: i32,
    size: usize,
)
    requires
        shapes.len() == orders.len(),
        0 <= at < orders.len(),
    ensures
        total_sized(shapes.remove(at), orders.remove(at), label, size) + sized(
            shapes[at],
            orders[at],
            label,
            size,
        ) == total_sized(shapes, orders, label, size),
{
    let head = orders.take(at);
    let tail = orders.skip(at + 1);
    let head_shapes = shapes.take(at);
    let tail_shapes = shapes.skip(at + 1);
    assert(orders =~= head + seq![orders[at]] + tail);
    assert(shapes =~= head_shapes + seq![shapes[at]] + tail_shapes);
    assert(orders.remove(at) =~= head + tail);
    assert(shapes.remove(at) =~= head_shapes + tail_shapes);
    lemma_total_sized_concat(
        head_shapes + seq![shapes[at]],
        head + seq![orders[at]],
        tail_shapes,
        tail,
        label,
        size,
    );
    lemma_total_sized_concat(head_shapes, head, seq![shapes[at]], seq![orders[at]], label, size);
    lemma_total_sized_concat(head_shapes, head, tail_shapes, tail, label, size);
    lemma_total_sized_one(shapes[at], orders[at], label, size);
}

/// All axes of a label and a size are axes of that label, over all arrays.
pub proof fn lemma_total_sized_bound(
    shapes: Seq<Seq<usize>>,
    orders: Seq<Seq<i32>>,
    label: i32,
    first: usize,
    second: usize,
    n: nat,
)
    requires
        n <= orders.len(),
        first != second,
    ensures
        total_sized_upto(shapes, orders, label, first, n) + total_sized_upto(
            shapes,
            orders,
            label,
            second,
            n,
        ) <= total_occurrences_upto(orders, label, n),
        forall|t: int, k: int|
            0 <= t < n && 0 <= k < orders[t].len() && #[trigger] orders[t][k] == label
                && shapes[t][k] == first ==> total_sized_upto(shapes, orders, label, first, n) > 0,
    decreases n,
{
    if n > 0 {
        lemma_total_sized_bound(shapes, orders, label, first, second, (n - 1) as nat);
        let shape = shapes[n - 1];
        let order = orders[n - 1];
        lemma_sized_apart(shape, order, label, first, second, order.len());
        lemma_sized_bound(shape, order, label, first, order.len());
        assert forall|t: int, k: int|
            0 <= t < n && 0 <= k < orders[t].len() && #[trigger] orders[t][k] == label
                && shapes[t][k] == first implies total_sized_upto(shapes, orders, label, first, n)
            > 0 by {
            if t == n - 1 {
                assert(0 <= k < order.len() && order[k] == label && shape[k] == first);
            }
        }
    }
}

/// What is kept of an array holds the axes of a label and a size that the
/// array holds, unless the other array carries the label.
pub proof fn lemma_unshared_sized(
    shape: Seq<usize>,
    order: Seq<i32>,
    other: Seq<i32>,
    label: i32,
    size: usize,
    n: nat,
)
    requires
        n <= order.len(),
        shape.len() == order.len(),
    ensures
        unshared_upto(shape, order, other, n).len() == unshared_upto(order, order, other, n).len(),
        sized(
            unshared_upto(shape, order, other, n),
            unshared_upto(order, order, other, n),
            label,
            size,
        ) == if other.contains(label) {
            0
        } else {
            sized_upto(shape, order, label, size, n)
        },
    decreases n,
{
    if n > 0 {
        lemma_unshared_sized(shape, order, other, label, size, (n - 1) as nat);
        if !other.contains(order[n - 1]) {
            lemma_sized_push(
                unshared_upto(shape, order, other, (n - 1) as nat),
                shape[n - 1],
                unshared_upto(order, order, other, (n - 1) as nat),
                order[n - 1],
                label,
                size,
            );
        }
    }
}

/// In an array that carries no label twice, the axes of a label and a size
/// are one or none: one exactly if the axis of that label has that size.
pub proof fn lemma_sized_distinct(
    shape: Seq<usize>,
    order: Seq<i32>,
    at: int,
    size: usize,
)
    requires
        order.no_duplicates(),
        0 <= at < order.len(),
    ensures
        sized(shape, order, order[at], size) == if shape[at] == size {
            1nat
        } else {
            0nat
        },
{
    let label = order[at];
    lemma_sized_bound(shape, order, label, size, order.len());
    lemma_occurrences_distinct(order, label, order.len());
    if shape[at] != size {
        if sized(shape, order, label, size) > 0 {
            let k = choose|k: int|
                0 <= k < order.len() && #[trigger] order[k] == label && shape[k] == size;
            assert(k == at);
        }
    } else {
        assert(0 <= at < order.len() && order[at] == label && shape[at] == size);
    }
}

/// Where there was no mismatch, all matched axes agree in size.
pub proof fn lemma_all_matched(
    a: Seq<usize>,
    b: Seq<usize>,
    left: Seq<usize>,
    right: Seq<usize>,
    n: nat,
)
    requires
        first_mismatch(a, b, left, right, n) == n,
    ensures
        forall|m: int| 0 <= m < n ==> a[(#[trigger] left[m]) as int] == b[right[m] as int],
    decreases n,
{
    if n > 0 {
        let before = first_mismatch(a, b, left, right, (n - 1) as nat);
        lemma_first_mismatch_bound(a, b, left, right, (n - 1) as nat);
        lemma_all_matched(a, b, left, right, (n - 1) as nat);
    }
}

/// The first mismatch among `n` pairs is one of them, or `n`.
pub proof fn lemma_first_mismatch_bound(
    a: Seq<usize>,
    b: Seq<usize>,
    left: Seq<usize>,
    right: Seq<usize>,
    n: nat,
)
    ensures
        first_mismatch(a, b, left, right, n) <= n,
    decreases n,
{
    if n > 0 {
        lemma_first_mismatch_bound(a, b, left, right, (n - 1) as nat);
    }
}

/// The contraction of two arrays whose matched axes agree in size takes the
/// axes of a label and a size two at a time, where neither array carries a
/// label twice.
pub proof fn lemma_merged_sized(
    a_shape: Seq<usize>,
    a: Seq<i32>,
    b_shape: Seq<usize>,
    b: Seq<i32>,
    label: i32,
    size: usize,
)
    requires
        a.no_duplicates(),
        b.no_duplicates(),
        a_shape.len() == a.len() <= usize::MAX,
        b_shape.len() == b.len() <= usize::MAX,
        first_mismatch(
            a_shape,
            b_shape,
            left_half(axis_pairs(a, b)),
            right_half(axis_pairs(a, b)),
            left_half(axis_pairs(a, b)).len(),
        ) == left_half(axis_pairs(a, b)).len(),
    ensures
        sized(dot_shape(a_shape, b_shape, axis_pairs(a, b)), merged_order(a, b), label, size) % 2
            == (sized(a_shape, a, label, size) + sized(b_shape, b, label, size)) % 2,
{
    lemma_labels_follow_axes(a_shape, a, b_shape, b);
    lemma_unshared_sized(a_shape, a, b, label, size, a.len());
    lemma_unshared_sized(b_shape, b, a, label, size, b.len());
    lemma_sized_concat(
        unshared(a_shape, a, b),
        unshared(a, a, b),
        unshared(b_shape, b, a),
        unshared(b, b, a),
        label,
        size,
    );
    lemma_sized_bound(a_shape, a, label, size, a.len());
    lemma_sized_bound(b_shape, b, label, size, b.len());
    lemma_occurrences_contains(a, label, a.len());
    lemma_occurrences_contains(b, label, b.len());
    if a.contains(label) && b.contains(label) {
        let x = choose|x: int| 0 <= x < a.len() && a[x] == label;
        let y = choose|y: int| 0 <= y < b.len() && b[y] == label;
        lemma_sized_distinct(a_shape, a, x, size);
        lemma_sized_distinct(b_shape, b, y, size);
        let shared = shared_labels(a, b);
        let left = left_half(axis_pairs(a, b));
        let right = right_half(axis_pairs(a, b));
        lemma_axis_pairs(a, b);
        lemma_shared_labels_upto(a, b, a.len());
        lemma_distinct_first_index(a, x);
        lemma_distinct_first_index(b, y);
        assert(shared.contains(a[x]));
        let m = choose|m: int| 0 <= m < shared.len() && shared[m] == label;
        assert(left[m] == x);
        assert(right[m] == y);
        lemma_all_matched(a_shape, b_shape, left, right, left.len());
        assert(a_shape[left[m] as int] == b_shape[right[m] as int]);
    }
}

/// The extra axes bring each new label twice with the size one, and no
/// other axis.
pub proof fn lemma_normalized_sized(
    shapes: Seq<Seq<usize>>,
    orders: Seq<Seq<i32>>,
    label: i32,
    size: usize,
)
    requires
        crate::labels::aligned(shapes, orders),
    ensures
        total_sized(normalized_shapes(shapes), normalized_orders(orders), label, size) % 2
            == total_sized(shapes, orders, label, size) % 2,
{
    let n = orders.len();
    let lifted = normalized_orders(orders);
    let lifted_shapes = normalized_shapes(shapes);
    if n == 0 {
        assert(lifted =~= orders);
        assert(lifted_shapes =~= shapes);
    } else {
        let ceiling = label_ceiling(orders);
        let extra = Seq::new((n - 1) as nat, |k: int| (ceiling + k + 1) as i32);
        let ones = Seq::new((n - 1) as nat, |k: int| 1usize);
        lemma_normalized_sized_upto(shapes, orders, label, size, (n - 1) as nat);
        assert(lifted[n - 1] == orders[n - 1] + extra);
        assert(lifted_shapes[n - 1] == shapes[n - 1] + ones);
        assert(shapes[n - 1].len() == orders[n - 1].len());
        lemma_sized_concat(shapes[n - 1], orders[n - 1], ones, extra, label, size);
    }
}

proof fn lemma_normalized_sized_upto(
    shapes: Seq<Seq<usize>>,
    orders: Seq<Seq<i32>>,
    label: i32,
    size: usize,
    m: nat,
)
    requires
        crate::labels::aligned(shapes, orders),
        m + 1 <= orders.len(),
    ensures
        total_sized_upto(normalized_shapes(shapes), normalized_orders(orders), label, size, m)
            == total_sized_upto(shapes, orders, label, size, m) + sized_upto(
            Seq::new((orders.len() - 1) as nat, |k: int| 1usize),
            Seq::new((orders.len() - 1) as nat, |k: int| (label_ceiling(orders) + k + 1) as i32),
            label,
            size,
            m,
        ),
    decreases m,
{
    if m > 0 {
        lemma_normalized_sized_upto(shapes, orders, label, size, (m - 1) as nat);
        let ceiling = label_ceiling(orders);
        let extra = Seq::new((orders.len() - 1) as nat, |k: int| (ceiling + k + 1) as i32);
        let ones = Seq::new((orders.len() - 1) as nat, |k: int| 1usize);
        let lifted = normalized_orders(orders);
        let lifted_shapes = normalized_shapes(shapes);
        assert(lifted[m - 1] == orders[m - 1].push((ceiling + (m - 1) + 1) as i32));
        assert(lifted_shapes[m - 1] == shapes[m - 1].push(1usize));
        assert(extra[m - 1] == (ceiling + (m - 1) + 1) as i32);
        assert(ones[m - 1] == 1usize);
        assert(shapes[m - 1].len() == orders[m - 1].len());
        lemma_sized_push(shapes[m - 1], 1usize, orders[m - 1], extra[m - 1], label, size);
    }
}

/// Reordering the axes of an array keeps its axes, each with its label and
/// its size.
pub proof fn lemma_pick_sized(
    shape: Seq<usize>,
    order: Seq<i32>,
    axes: Seq<usize>,
    label: i32,
    size: usize,
)
    requires
        shape.len() == order.len(),
        axes.len() == order.len(),
        order.len() <= usize::MAX,
        is_axis_order(axes, order.len()),
    ensures
        has_sized_axis(pick(shape, axes), pick(order, axes), label, size) <==> has_sized_axis(
            shape,
            order,
            label,
            size,
        ),
{
    let new_order = pick(order, axes);
    let new_shape = pick(shape, axes);
    if has_sized_axis(shape, order, label, size) {
        let k = choose|k: int|
            0 <= k < order.len() && #[trigger] order[k] == label && shape[k] == size;
        assert(axes.contains(k as usize));
        let m = choose|m: int| 0 <= m < axes.len() && axes[m] == k as usize;
        assert(new_order[m] == label && new_shape[m] == size);
    }
    if has_sized_axis(new_shape, new_order, label, size) {
        let m = choose|m: int|
            0 <= m < new_order.len() && #[trigger] new_order[m] == label && new_shape[m] == size;
        let k = axes[m] as int;
        assert(order[k] == label && shape[k] == size);
    }
}

/// In an array that carries no label twice, there is an axis of a label and
/// a size exactly if their count is odd.
pub proof fn lemma_sized_parity(shape: Seq<usize>, order: Seq<i32>, label: i32, size: usize)
    requires
        order.no_duplicates(),
    ensures
        has_sized_axis(shape, order, label, size) <==> sized(shape, order, label, size) % 2 == 1,
{
    lemma_sized_bound(shape, order, label, size, order.len());
    lemma_occurrences_distinct(order, label, order.len());
}

/// A label that occurs with a size at all does so on some axis.
pub proof fn lemma_total_sized_positive(
    shapes: Seq<Seq<usize>>,
    orders: Seq<Seq<i32>>,
    label: i32,
    size: usize,
    n: nat,
)
    requires
        n <= orders.len(),
        total_sized_upto(shapes, orders, label, size, n) > 0,
    ensures
        exists|t: int, k: int|
            0 <= t < n && 0 <= k < orders[t].len() && #[trigger] orders[t][k] == label
                && shapes[t][k] == size,
    decreases n,
{
    if n > 0 {
        let row = orders[n - 1];
        let extents = shapes[n - 1];
        if sized(extents, row, label, size) > 0 {
            lemma_sized_bound(extents, row, label, size, row.len());
            let k = choose|k: int|
                0 <= k < row.len() && #[trigger] row[k] == label && extents[k] == size;
            let t = n - 1;
            assert(0 <= t < n && 0 <= k < orders[t].len() && orders[t][k] == label && shapes[t][k]
                == size);
        } else {
            lemma_total_sized_positive(shapes, orders, label, size, (n - 1) as nat);
            let (t, k) = choose|t: int, k: int|
                0 <= t < n - 1 && 0 <= k < orders[t].len() && #[trigger] orders[t][k] == label
                    && shapes[t][k] == size;
            assert(0 <= t < n && 0 <= k < orders[t].len() && orders[t][k] == label && shapes[t][k]
                == size);
        }
    }
}

} // verus!
