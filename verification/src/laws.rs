//! What holds of every contraction.

use vstd::prelude::*;
use crate::error::ContractionError;
use crate::labels::{
    aligned, axis_pairs, first_index, is_axis, lemma_first_index, lemma_first_index_is,
    shared_labels, unshared, unshared_upto,
};
use crate::pairing::{lemma_axis_pairs, lemma_labels_follow_axes, lemma_shared_labels_upto};
use crate::planner::{lemma_first_best_upto, row_sums, score_matrix};
use crate::shape::{lemma_volume_concat, lemma_volume_permuted, pick, volume};
use crate::tencon::{
    Run, StepView, carried_out, greedy_plan, greedy_steps, is_descending, is_label_ceiling,
    label_ceiling, labels_have_room, lemma_label_ceiling, lemma_traced_distinct, merged_pair,
    next_pair, normalized_orders, normalized_shapes, planned, precedes, settled,
};
use crate::tendot::{first_mismatch, left_half, right_half};

verus! {

/// The plan depends on the shapes and the label orders alone: planning
/// twice for the same shapes and label orders gives the same plan.
pub proof fn lemma_same_plan(
    first_shapes: Seq<Seq<usize>>,
    first_orders: Seq<Seq<i32>>,
    first_plan: Seq<Seq<usize>>,
    second_shapes: Seq<Seq<usize>>,
    second_orders: Seq<Seq<i32>>,
    second_plan: Seq<Seq<usize>>,
)
    requires
        first_shapes == second_shapes,
        first_orders == second_orders,
        first_plan == planned(first_shapes, first_orders),
        second_plan == planned(second_shapes, second_orders),
    ensures
        first_plan == second_plan,
{
}

/// The axes of an array can be put in the order of their labels in one way
/// only.
pub proof fn lemma_descending_unique(order: Seq<i32>, first: Seq<usize>, second: Seq<usize>)
    requires
        is_descending(order, first),
        is_descending(order, second),
    ensures
        first == second,
{
    lemma_descending_agree(order, first, second, order.len());
    assert(first =~= second);
}

proof fn lemma_descending_agree(order: Seq<i32>, first: Seq<usize>, second: Seq<usize>, n: nat)
    requires
        is_descending(order, first),
        is_descending(order, second),
        n <= order.len(),
    ensures
        forall|k: int| 0 <= k < n ==> first[k] == second[k],
    decreases n,
{
    if n > 0 {
        lemma_descending_agree(order, first, second, (n - 1) as nat);
        let k = n - 1;
        let x = first[k];
        let y = second[k];
        if x != y {
            assert(x < order.len());
            assert(y < order.len());
            assert(second.contains(x));
            let m = choose|m: int| 0 <= m < second.len() && second[m] == x;
            if m < k {
                assert(first[m] == second[m]);
                assert(first[m] == first[k]);
            }
            assert(precedes(order, second[k] as int, second[m] as int));
            assert(first.contains(y));
            let q = choose|q: int| 0 <= q < first.len() && first[q] == y;
            if q < k {
                assert(first[q] == second[q]);
                assert(second[q] == second[k]);
            }
            assert(precedes(order, first[k] as int, first[q] as int));
        }
    }
}

/// The largest of the first `n` labels of an order.
proof fn largest_of(order: Seq<i32>, n: nat) -> (largest: int)
    requires
        0 < n <= order.len(),
    ensures
        forall|k: int| 0 <= k < n ==> order[k] <= largest,
        exists|k: int| 0 <= k < n && order[k] == largest,
    decreases n,
{
    if n == 1 {
        assert(0 <= 0 < n && order[0] == order[0]);
        order[0] as int
    } else {
        let before = largest_of(order, (n - 1) as nat);
        let k = choose|k: int| 0 <= k < n - 1 && order[k] == before;
        if order[n - 1] > before {
            assert(0 <= n - 1 < n && order[n - 1] == order[n - 1]);
            order[n - 1] as int
        } else {
            assert(0 <= k < n && order[k] == before);
            before
        }
    }
}

/// `ceiling` is the largest label of the first `n` orders, or zero where
/// they hold no label.
spec fn is_ceiling_upto(orders: Seq<Seq<i32>>, ceiling: int, n: nat) -> bool {
    &&& forall|t: int, k: int|
        0 <= t < n && 0 <= k < orders[t].len() ==> (#[trigger] orders[t][k]) <= ceiling
    &&& (ceiling == 0 && forall|t: int| 0 <= t < n ==> (#[trigger] orders[t]).len() == 0)
        || exists|t: int, k: int|
        0 <= t < n && 0 <= k < orders[t].len() && #[trigger] orders[t][k] == ceiling
}

proof fn ceiling_upto(orders: Seq<Seq<i32>>, n: nat) -> (ceiling: int)
    requires
        n <= orders.len(),
    ensures
        is_ceiling_upto(orders, ceiling, n),
    decreases n,
{
    if n == 0 {
        0
    } else {
        let before = ceiling_upto(orders, (n - 1) as nat);
        let row = orders[n - 1];
        if row.len() == 0 {
            if exists|t: int, k: int|
                0 <= t < n - 1 && 0 <= k < orders[t].len() && #[trigger] orders[t][k] == before {
                let (t, k) = choose|t: int, k: int|
                    0 <= t < n - 1 && 0 <= k < orders[t].len() && #[trigger] orders[t][k] == before;
                assert(0 <= t < n && 0 <= k < orders[t].len() && orders[t][k] == before);
            }
            before
        } else {
            let here = largest_of(row, row.len());
            let m = choose|m: int| 0 <= m < row.len() && row[m] == here;
            if forall|t: int| 0 <= t < n - 1 ==> (#[trigger] orders[t]).len() == 0 {
                assert(0 <= n - 1 < n && 0 <= m < orders[n - 1].len() && orders[n - 1][m] == here);
                here
            } else if here > before {
                assert(0 <= n - 1 < n && 0 <= m < orders[n - 1].len() && orders[n - 1][m] == here);
                here
            } else {
                let (t, k) = choose|t: int, k: int|
                    0 <= t < n - 1 && 0 <= k < orders[t].len() && #[trigger] orders[t][k] == before;
                assert(0 <= t < n && 0 <= k < orders[t].len() && orders[t][k] == before);
                before
            }
        }
    }
}

/// Every list of label orders has its largest label.
pub proof fn lemma_label_ceiling_exists(orders: Seq<Seq<i32>>)
    ensures
        is_label_ceiling(orders, label_ceiling(orders)),
{
    let ceiling = ceiling_upto(orders, orders.len());
    assert(is_label_ceiling(orders, ceiling)) by {
        if exists|t: int, k: int|
            0 <= t < orders.len() && 0 <= k < orders[t].len() && #[trigger] orders[t][k]
                == ceiling {
            let (t, k) = choose|t: int, k: int|
                0 <= t < orders.len() && 0 <= k < orders[t].len() && #[trigger] orders[t][k]
                    == ceiling;
            assert(is_axis(orders, t, k) && orders[t][k] == ceiling);
        }
    }
    lemma_label_ceiling(orders, ceiling);
}

/// Where no axis is dropped, everything is kept.
proof fn lemma_unshared_nothing<T>(values: Seq<T>, order: Seq<i32>, other: Seq<i32>, n: nat)
    requires
        n <= order.len(),
        n <= values.len(),
        forall|k: int| 0 <= k < n ==> !other.contains(#[trigger] order[k]),
    ensures
        unshared_upto(values, order, other, n) == values.take(n as int),
    decreases n,
{
    if n > 0 {
        lemma_unshared_nothing(values, order, other, (n - 1) as nat);
        assert(!other.contains(order[n - 1]));
        assert(values.take(n as int) =~= values.take(n - 1).push(values[n - 1]));
    } else {
        assert(values.take(0) =~= Seq::<T>::empty());
    }
}

/// Where all matched axes agree in size there is no mismatch.
pub proof fn lemma_no_mismatch(
    a: Seq<usize>,
    b: Seq<usize>,
    left: Seq<usize>,
    right: Seq<usize>,
    n: nat,
)
    requires
        forall|m: int| 0 <= m < n ==> a[(#[trigger] left[m]) as int] == b[right[m] as int],
    ensures
        first_mismatch(a, b, left, right, n) == n,
    decreases n,
{
    if n > 0 {
        lemma_no_mismatch(a, b, left, right, (n - 1) as nat);
        assert(a[left[n - 1] as int] == b[right[n - 1] as int]);
    }
}

/// What is kept of an array with one extra axis, when the other array
/// carries the extra label and none of the others: the array as it was.
proof fn lemma_unshared_extra<T>(
    values: Seq<T>,
    extra: T,
    order: Seq<i32>,
    other: Seq<i32>,
    label: i32,
)
    requires
        values.len() == order.len(),
        other.contains(label),
        forall|k: int| 0 <= k < order.len() ==> !other.contains(#[trigger] order[k]),
    ensures
        unshared(values.push(extra), order.push(label), other) == values,
{
    let lifted = order.push(label);
    assert forall|k: int| 0 <= k < order.len() implies !other.contains(#[trigger] lifted[k]) by {
        assert(lifted[k] == order[k]);
    }
    lemma_unshared_nothing(values.push(extra), lifted, other, order.len());
    assert(lifted[order.len() as int] == label);
    assert(values.push(extra).take(order.len() as int) =~= values);
}

/// The one contraction of two arrays that share nothing but their extra
/// axis: nothing is traced, and the result holds the axes of the first
/// followed by those of the second.
proof fn lemma_outer_step(
    shapes: Seq<Seq<usize>>,
    orders: Seq<Seq<i32>>,
    i: int,
    j: int,
    x_shape: Seq<usize>,
    x: Seq<i32>,
    y_shape: Seq<usize>,
    y: Seq<i32>,
    label: i32,
)
    requires
        shapes.len() == 2,
        orders.len() == 2,
        (i == 0 && j == 1) || (i == 1 && j == 0),
        shapes[i] == x_shape.push(1usize),
        orders[i] == x.push(label),
        shapes[j] == y_shape.push(1usize),
        orders[j] == y.push(label),
        x_shape.len() == x.len(),
        y_shape.len() == y.len(),
        x.len() < usize::MAX,
        y.len() < usize::MAX,
        (x + y).no_duplicates(),
        !(x + y).contains(label),
    ensures
        merged_pair(shapes, orders, seq![i as usize, j as usize]) matches Ok(merged) && {
            &&& merged.shapes == seq![x_shape + y_shape]
            &&& merged.orders == seq![x + y]
            &&& merged.step.left_traces.len() == 0
            &&& merged.step.right_traces.len() == 0
        },
{
    let si = shapes[i];
    let sj = shapes[j];
    let oi = orders[i];
    let oj = orders[j];
    let both = x + y;
    assert forall|k: int|
        0 <= k < x.len() implies x[k] != label && !y.contains(#[trigger] x[k]) by {
        assert(both[k] == x[k]);
        if y.contains(x[k]) {
            let m = choose|m: int| 0 <= m < y.len() && y[m] == x[k];
            assert(both[x.len() + m] == y[m]);
        }
    }
    assert forall|k: int|
        0 <= k < y.len() implies y[k] != label && !x.contains(#[trigger] y[k]) by {
        assert(both[x.len() + k] == y[k]);
        if x.contains(y[k]) {
            let m = choose|m: int| 0 <= m < x.len() && x[m] == y[k];
            assert(both[m] == x[m]);
        }
    }
    assert(oi.no_duplicates()) by {
        assert forall|k: int, m: int| 0 <= k < oi.len() && 0 <= m < oi.len() && k != m implies oi[k]
            != oi[m] by {
            if k < x.len() && m < x.len() {
                assert(both[k] == x[k] && both[m] == x[m]);
            }
        }
    }
    assert(oj.no_duplicates()) by {
        assert forall|k: int, m: int| 0 <= k < oj.len() && 0 <= m < oj.len() && k != m implies oj[k]
            != oj[m] by {
            if k < y.len() && m < y.len() {
                assert(both[x.len() + k] == y[k] && both[x.len() + m] == y[m]);
            }
        }
    }
    lemma_traced_distinct(si, oi);
    lemma_traced_distinct(sj, oj);
    assert(shapes.update(i, si) =~= shapes);
    assert(orders.update(i, oi) =~= orders);
    assert(shapes.update(j, sj) =~= shapes);
    assert(orders.update(j, oj) =~= orders);
    let axes = axis_pairs(oi, oj);
    lemma_axis_pairs(oi, oj);
    lemma_labels_follow_axes(si, oi, sj, oj);
    assert(oi[x.len() as int] == label);
    assert(oj[y.len() as int] == label);
    assert(oi.contains(label));
    assert(oj.contains(label));
    assert forall|k: int| 0 <= k < x.len() implies !oj.contains(#[trigger] x[k]) by {
        if oj.contains(x[k]) {
            let m = choose|m: int| 0 <= m < oj.len() && oj[m] == x[k];
            if m < y.len() {
                assert(y.contains(y[m]));
            }
        }
    }
    assert forall|k: int| 0 <= k < y.len() implies !oi.contains(#[trigger] y[k]) by {
        if oi.contains(y[k]) {
            let m = choose|m: int| 0 <= m < oi.len() && oi[m] == y[k];
            if m < x.len() {
                assert(x.contains(x[m]));
            }
        }
    }
    lemma_unshared_extra(x_shape, 1usize, x, oj, label);
    lemma_unshared_extra(y_shape, 1usize, y, oi, label);
    lemma_unshared_extra(x, label, x, oj, label);
    lemma_unshared_extra(y, label, y, oi, label);
    let shared = shared_labels(oi, oj);
    let left = left_half(axes);
    let right = right_half(axes);
    lemma_shared_labels_upto(oi, oj, oi.len());
    lemma_first_index_is(oi, label, x.len() as int);
    lemma_first_index_is(oj, label, y.len() as int);
    assert forall|m: int|
        0 <= m < left.len() implies si[(#[trigger] left[m]) as int] == sj[right[m] as int] by {
        let found = shared[m];
        assert(oj.contains(found));
        lemma_first_index(oi, found);
        let at = first_index(oi, found) as int;
        assert(oi[at] == found);
        if at < x.len() {
            assert(oi[at] == x[at]);
            assert(!oj.contains(x[at]));
        }
        assert(found == label);
    }
    lemma_no_mismatch(si, sj, left, right, left.len());
    let merged = merged_pair(shapes, orders, seq![i as usize, j as usize]).unwrap();
    assert(merged.shapes =~= seq![x_shape + y_shape]);
    assert(merged.orders =~= seq![x + y]);
}

/// The label orders of two arrays after they got their extra axis: both
/// carry one new label, which is none of theirs.
proof fn lemma_lift_two_orders(a: Seq<i32>, b: Seq<i32>)
    requires
        labels_have_room(seq![a, b]),
    ensures
        ({
            let label = (label_ceiling(seq![a, b]) + 1) as i32;
            &&& !(a + b).contains(label)
            &&& !(b + a).contains(label)
            &&& normalized_orders(seq![a, b]) == seq![a.push(label), b.push(label)]
        }),
{
    let orders = seq![a, b];
    let both = a + b;
    lemma_label_ceiling_exists(orders);
    let ceiling = label_ceiling(orders);
    let label = (ceiling + 1) as i32;
    assert(orders[0] == a && orders[1] == b);
    assert forall|k: int| 0 <= k < both.len() implies both[k] <= ceiling by {
        if k < a.len() {
            assert(is_axis(orders, 0, k));
            assert(orders[0][k] <= ceiling);
        } else {
            assert(is_axis(orders, 1, k - a.len()));
            assert(orders[1][k - a.len()] <= ceiling);
        }
    }
    assert(i32::MIN <= ceiling) by {
        if exists|t: int, k: int| is_axis(orders, t, k) && #[trigger] orders[t][k] == ceiling {
        }
    }
    assert(label == ceiling + 1);
    assert(!both.contains(label));
    if (b + a).contains(label) {
        let k = choose|k: int| 0 <= k < (b + a).len() && (b + a)[k] == label;
        let kk = if k < b.len() {
            a.len() + k
        } else {
            k - b.len()
        };
        assert(both[kk] == label);
    }
    let lifted = normalized_orders(orders);
    assert(lifted[0] =~= a.push(label));
    assert(lifted[1] =~= b.push(label));
    assert(lifted =~= seq![a.push(label), b.push(label)]);
}

/// The shapes of two arrays after they got their extra axis.
proof fn lemma_lift_two_shapes(a_shape: Seq<usize>, b_shape: Seq<usize>)
    ensures
        normalized_shapes(seq![a_shape, b_shape]) == seq![
            a_shape.push(1usize),
            b_shape.push(1usize),
        ],
{
    let lifted = normalized_shapes(seq![a_shape, b_shape]);
    assert(lifted[0] =~= a_shape.push(1usize));
    assert(lifted[1] =~= b_shape.push(1usize));
    assert(lifted =~= seq![a_shape.push(1usize), b_shape.push(1usize)]);
}

/// The plan for two arrays is one step that pairs them, in one order or the
/// other.
proof fn lemma_plan_of_two(shapes: Seq<Seq<usize>>, orders: Seq<Seq<i32>>)
    requires
        shapes.len() == 2,
        orders.len() == 2,
    ensures
        greedy_plan(shapes, orders) == seq![seq![0usize, 1usize]] || greedy_plan(shapes, orders)
            == seq![seq![1usize, 0usize]],
{
    let matrix = score_matrix(shapes, orders);
    let sums = row_sums(matrix);
    let (i, j) = next_pair(shapes, orders);
    lemma_first_best_upto(sums, -1, 2);
    assert(0 <= i < 2);
    lemma_first_best_upto(matrix[i], i, 2);
    assert(0 <= j < 2 && i != j);
    let rest = greedy_steps(
        crate::tencon::spliced(shapes, orders, i, j),
        crate::tencon::spliced(orders, orders, i, j),
        0,
    );
    assert(rest =~= Seq::<Seq<usize>>::empty());
    let plan = greedy_plan(shapes, orders);
    assert(plan == seq![seq![i as usize, j as usize]] + rest);
    assert(plan =~= seq![seq![i as usize, j as usize]]);
    if i == 0 {
        assert(seq![i as usize, j as usize] =~= seq![0usize, 1usize]);
    } else {
        assert(seq![i as usize, j as usize] =~= seq![1usize, 0usize]);
    }
}

/// Labels that are distinct in one order of two arrays are distinct in the
/// other.
proof fn lemma_swapped_distinct(a: Seq<i32>, b: Seq<i32>)
    requires
        (a + b).no_duplicates(),
    ensures
        (b + a).no_duplicates(),
{
    let both = a + b;
    let swapped = b + a;
    assert forall|k: int, m: int|
        0 <= k < swapped.len() && 0 <= m < swapped.len() && k != m implies swapped[k]
        != swapped[m] by {
        let kk = if k < b.len() {
            a.len() + k
        } else {
            k - b.len()
        };
        let mm = if m < b.len() {
            a.len() + m
        } else {
            m - b.len()
        };
        assert(both[kk] == swapped[k]);
        assert(both[mm] == swapped[m]);
    }
}

/// A plan of one step that succeeds leaves what its step leaves.
proof fn lemma_run_of_one(shapes: Seq<Seq<usize>>, orders: Seq<Seq<i32>>, plan: Seq<Seq<usize>>)
    requires
        plan.len() == 1,
        merged_pair(shapes, orders, plan[0]) is Ok,
    ensures
        carried_out(shapes, orders, plan, 0) == Ok::<Run, ContractionError>(
            Run {
                steps: seq![merged_pair(shapes, orders, plan[0]).unwrap().step],
                shapes: merged_pair(shapes, orders, plan[0]).unwrap().shapes,
                orders: merged_pair(shapes, orders, plan[0]).unwrap().orders,
            },
        ),
{
    let merged = merged_pair(shapes, orders, plan[0]).unwrap();
    let rest = carried_out(merged.shapes, merged.orders, plan, 1);
    assert(rest == Ok::<Run, ContractionError>(
        Run { steps: Seq::empty(), shapes: merged.shapes, orders: merged.orders },
    ));
    assert(seq![merged.step] + Seq::<StepView>::empty() =~= seq![merged.step]);
}

/// What settles from two arrays whose one step leaves one array that
/// carries no label twice.
proof fn lemma_settled_of_two(
    shapes: Seq<Seq<usize>>,
    orders: Seq<Seq<i32>>,
    shape: Seq<usize>,
    order: Seq<i32>,
)
    requires
        greedy_plan(normalized_shapes(shapes), normalized_orders(orders)).len() == 1,
        merged_pair(
            normalized_shapes(shapes),
            normalized_orders(orders),
            greedy_plan(normalized_shapes(shapes), normalized_orders(orders))[0],
        ) matches Ok(merged) && merged.shapes == seq![shape] && merged.orders == seq![order]
            && merged.step.left_traces.len() == 0 && merged.step.right_traces.len() == 0,
        order.no_duplicates(),
    ensures
        settled(shapes, orders) matches Ok(result) && {
            &&& result.steps.len() == 1
            &&& result.steps[0].left_traces.len() == 0
            &&& result.steps[0].right_traces.len() == 0
            &&& result.closing_traces.len() == 0
            &&& result.shape == shape
            &&& result.order == order
        },
{
    let lifted_shapes = normalized_shapes(shapes);
    let lifted_orders = normalized_orders(orders);
    let plan = greedy_plan(lifted_shapes, lifted_orders);
    lemma_run_of_one(lifted_shapes, lifted_orders, plan);
    lemma_traced_distinct(shape, order);
}

/// Two arrays that share no label and carry none twice contract to their
/// outer product: the contraction has one step without a trace, and the
/// result has as many elements as the first array times the second, in
/// whatever order its axes are put.
pub proof fn lemma_outer_product(
    a_shape: Seq<usize>,
    a: Seq<i32>,
    b_shape: Seq<usize>,
    b: Seq<i32>,
    axes: Seq<usize>,
)
    requires
        a_shape.len() == a.len(),
        b_shape.len() == b.len(),
        a.len() < usize::MAX,
        b.len() < usize::MAX,
        a.len() + b.len() <= usize::MAX,
        (a + b).no_duplicates(),
        labels_have_room(seq![a, b]),
    ensures
        settled(seq![a_shape, b_shape], seq![a, b]) matches Ok(result) && {
            &&& result.steps.len() == 1
            &&& result.steps[0].left_traces.len() == 0
            &&& result.steps[0].right_traces.len() == 0
            &&& result.closing_traces.len() == 0
            &&& volume(result.shape) == volume(a_shape) * volume(b_shape)
            &&& is_descending(result.order, axes) ==> volume(pick(result.shape, axes)) == volume(
                a_shape,
            ) * volume(b_shape)
        },
{
    let shapes = seq![a_shape, b_shape];
    let orders = seq![a, b];
    let label = (label_ceiling(orders) + 1) as i32;
    lemma_lift_two_orders(a, b);
    lemma_lift_two_shapes(a_shape, b_shape);
    let lifted_shapes = normalized_shapes(shapes);
    let lifted_orders = normalized_orders(orders);
    lemma_plan_of_two(lifted_shapes, lifted_orders);
    let plan = greedy_plan(lifted_shapes, lifted_orders);
    if plan == seq![seq![0usize, 1usize]] {
        lemma_outer_step(lifted_shapes, lifted_orders, 0, 1, a_shape, a, b_shape, b, label);
        lemma_settled_of_two(shapes, orders, a_shape + b_shape, a + b);
        lemma_volume_concat(a_shape, b_shape);
    } else {
        lemma_swapped_distinct(a, b);
        lemma_outer_step(lifted_shapes, lifted_orders, 1, 0, b_shape, b, a_shape, a, label);
        lemma_settled_of_two(shapes, orders, b_shape + a_shape, b + a);
        lemma_volume_concat(b_shape, a_shape);
        assert(volume(b_shape) * volume(a_shape) == volume(a_shape) * volume(b_shape))
            by (nonlinear_arith);
    }
    let result = settled(shapes, orders).unwrap();
    if is_descending(result.order, axes) {
        lemma_volume_permuted(result.shape, axes);
    }
}

/// The extra axes join every array to the last: the new label of an array
/// is larger than every label that was given, it sits on the array's last
/// axis and on an axis of the last array, and both axes have the size one.
pub proof fn lemma_extra_axes(shapes: Seq<Seq<usize>>, orders: Seq<Seq<i32>>, t: int)
    requires
        aligned(shapes, orders),
        labels_have_room(orders),
        0 <= t < orders.len() - 1,
    ensures
        ({
            let label = normalized_orders(orders)[t].last();
            let on_last = orders[orders.len() - 1].len() + t;
            &&& label == label_ceiling(orders) + t + 1
            &&& forall|u: int, k: int| is_axis(orders, u, k) ==> (#[trigger] orders[u][k]) < label
            &&& normalized_shapes(shapes)[t].last() == 1
            &&& normalized_orders(orders)[orders.len() - 1][on_last] == label
            &&& normalized_shapes(shapes)[orders.len() - 1][on_last] == 1
        }),
{
    lemma_label_ceiling_exists(orders);
    let ceiling = label_ceiling(orders);
    assert(i32::MIN <= ceiling) by {
        if exists|u: int, k: int| is_axis(orders, u, k) && #[trigger] orders[u][k] == ceiling {
        }
    }
    let last = orders.len() - 1;
    assert(shapes[last].len() == orders[last].len());
}

} // verus!
