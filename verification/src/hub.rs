//! Why the extra axes are there: they join every array to one array, the
//! hub, and so every step of the greedy plan contracts two arrays that have
//! a label in common, as long as no array is empty.

use vstd::prelude::*;
use crate::labels::{aligned, first_index, is_axis, lemma_first_index, unshared, unshared_upto};
use crate::laws::lemma_label_ceiling_exists;
use crate::planner::{
    largest, largest_upto, lemma_first_best_upto, matrix_largest, others_volume_upto, row_peaks,
    row_sums, score, score_matrix, shared_extent, shared_extent_upto, total, total_upto,
};
use crate::shape::{lemma_volume_monotone, volume};
use crate::tencon::{
    label_ceiling, labels_have_room, lemma_normalized_aligned, lemma_spliced_aligned, next_pair,
    normalized_orders, normalized_shapes, spliced,
};

verus! {

/// No array has an axis of size zero.
pub open spec fn no_empty_axis(shapes: Seq<Seq<usize>>) -> bool {
    forall|t: int, k: int|
        0 <= t < shapes.len() && 0 <= k < shapes[t].len() ==> (#[trigger] shapes[t][k]) > 0
}

/// Two arrays have a label in common.
pub open spec fn share_label(a: Seq<i32>, b: Seq<i32>) -> bool {
    exists|label: i32| a.contains(label) && #[trigger] b.contains(label)
}

/// `label` sits on the arrays at `t` and `h` and on no other.
pub open spec fn links(orders: Seq<Seq<i32>>, t: int, h: int, label: i32) -> bool {
    &&& orders[t].contains(label)
    &&& orders[h].contains(label)
    &&& forall|u: int|
        0 <= u < orders.len() && u != t && u != h ==> !(#[trigger] orders[u]).contains(label)
}

/// The arrays at `t` and `h` have a label that no other array carries.
pub open spec fn linked(orders: Seq<Seq<i32>>, t: int, h: int) -> bool {
    exists|label: i32| links(orders, t, h, label)
}

/// Every other array is linked to the array at `h`.
pub open spec fn is_hub(orders: Seq<Seq<i32>>, h: int) -> bool {
    &&& 0 <= h < orders.len()
    &&& forall|t: int| 0 <= t < orders.len() && t != h ==> #[trigger] linked(orders, t, h)
}

/// Each of the next `steps` steps of the greedy plan contracts two arrays
/// that have a label in common.
pub open spec fn every_step_shares(shapes: Seq<Seq<usize>>, orders: Seq<Seq<i32>>, steps: nat)
    -> bool
    decreases steps,
{
    if steps == 0 {
        true
    } else {
        let (i, j) = next_pair(shapes, orders);
        &&& share_label(orders[i], orders[j])
        &&& every_step_shares(
            spliced(shapes, orders, i, j),
            spliced(orders, orders, i, j),
            (steps - 1) as nat,
        )
    }
}

/// With its extra axes, the last array is a hub.
pub proof fn lemma_normalized_hub(orders: Seq<Seq<i32>>)
    requires
        orders.len() >= 1,
        labels_have_room(orders),
    ensures
        is_hub(normalized_orders(orders), orders.len() - 1),
{
    let n = orders.len();
    let lifted = normalized_orders(orders);
    let ceiling = label_ceiling(orders);
    lemma_label_ceiling_exists(orders);
    assert(i32::MIN <= ceiling) by {
        if exists|u: int, k: int| is_axis(orders, u, k) && #[trigger] orders[u][k] == ceiling {
        }
    }
    assert forall|t: int| 0 <= t < n && t != n - 1 implies #[trigger] linked(lifted, t, n - 1) by {
        let label = (ceiling + t + 1) as i32;
        assert(lifted[t] == orders[t].push(label));
        assert(lifted[t][orders[t].len() as int] == label);
        assert(lifted[n - 1][orders[n - 1].len() + t] == label);
        assert forall|u: int| 0 <= u < n && u != t && u != n - 1 implies !(#[trigger] lifted[u]).contains(
            label,
        ) by {
            if lifted[u].contains(label) {
                let k = choose|k: int| 0 <= k < lifted[u].len() && lifted[u][k] == label;
                if k < orders[u].len() {
                    assert(is_axis(orders, u, k));
                    assert(orders[u][k] <= ceiling);
                }
            }
        }
        assert(links(lifted, t, n - 1, label));
    }
}

/// What is kept of an array are its labels that the other array does not
/// carry.
pub proof fn lemma_unshared_contains(order: Seq<i32>, other: Seq<i32>, label: i32, n: nat)
    requires
        n <= order.len(),
    ensures
        unshared_upto(order, order, other, n).contains(label) <==> !other.contains(label) && (
        exists|k: int| 0 <= k < n && order[k] == label),
    decreases n,
{
    if n > 0 {
        lemma_unshared_contains(order, other, label, (n - 1) as nat);
        let before = unshared_upto(order, order, other, (n - 1) as nat);
        let now = unshared_upto(order, order, other, n);
        let last = order[n - 1];
        if exists|k: int| 0 <= k < n - 1 && order[k] == label {
            let k = choose|k: int| 0 <= k < n - 1 && order[k] == label;
            assert(0 <= k < n && order[k] == label);
        }
        if !other.contains(last) {
            assert(now == before.push(last));
            if before.contains(label) {
                let m = choose|m: int| 0 <= m < before.len() && before[m] == label;
                assert(now[m] == label);
            }
            if last == label {
                assert(now[now.len() - 1] == label);
                assert(0 <= n - 1 < n && order[n - 1] == label);
            }
            if now.contains(label) {
                let m = choose|m: int| 0 <= m < now.len() && now[m] == label;
                if m < before.len() {
                    assert(before[m] == label);
                }
            }
        }
        if exists|k: int| 0 <= k < n && order[k] == label {
            let k = choose|k: int| 0 <= k < n && order[k] == label;
            if k < n - 1 {
                assert(0 <= k < n - 1 && order[k] == label);
            }
        }
    }
}

/// The label order of a contraction carries a label exactly if one of the
/// two arrays carries it and the other does not.
pub proof fn lemma_spliced_contains(a: Seq<i32>, b: Seq<i32>, label: i32)
    ensures
        (unshared(a, a, b) + unshared(b, b, a)).contains(label) <==> (a.contains(label)
            != b.contains(label)),
{
    let left = unshared(a, a, b);
    let right = unshared(b, b, a);
    let both = left + right;
    lemma_unshared_contains(a, b, label, a.len());
    lemma_unshared_contains(b, a, label, b.len());
    if left.contains(label) {
        let m = choose|m: int| 0 <= m < left.len() && left[m] == label;
        assert(both[m] == label);
    }
    if right.contains(label) {
        let m = choose|m: int| 0 <= m < right.len() && right[m] == label;
        assert(both[left.len() + m] == label);
    }
    if both.contains(label) {
        let m = choose|m: int| 0 <= m < both.len() && both[m] == label;
        if m < left.len() {
            assert(left[m] == label);
        } else {
            assert(right[m - left.len()] == label);
        }
    }
}

/// Where two arrays are replaced by their contraction, a hub stays a hub,
/// and the contraction of the hub is the new hub.
pub proof fn lemma_spliced_hub(orders: Seq<Seq<i32>>, h: int, i: int, j: int)
    requires
        is_hub(orders, h),
        0 <= i < orders.len(),
        0 <= j < orders.len(),
        i != j,
    ensures
        is_hub(
            spliced(orders, orders, i, j),
            if h == i || h == j {
                if i < j {
                    i
                } else {
                    i - 1
                }
            } else if h < j {
                h
            } else {
                h - 1
            },
        ),
{
    let merged = unshared(orders[i], orders[i], orders[j]) + unshared(
        orders[j],
        orders[j],
        orders[i],
    );
    let updated = orders.update(i, merged);
    let next = spliced(orders, orders, i, j);
    assert(next == updated.remove(j));
    let keep = if h == i || h == j {
        i
    } else {
        h
    };
    let hub = if keep < j {
        keep
    } else {
        keep - 1
    };
    assert(next[hub] == updated[keep]);
    assert forall|t: int| 0 <= t < next.len() && t != hub implies #[trigger] linked(next, t, hub) by {
        let from = if t < j {
            t
        } else {
            t + 1
        };
        assert(next[t] == updated[from]);
        assert(from != j && from != keep);
        // The label that carries the link.
        let label = if from == i {
            assert(linked(orders, i, h));
            choose|label: i32| links(orders, i, h, label)
        } else {
            assert(linked(orders, from, h));
            choose|label: i32| links(orders, from, h, label)
        };
        lemma_spliced_contains(orders[i], orders[j], label);
        if from == i {
            // The contraction is linked to the hub, which is a third array.
            assert(!orders[j].contains(label));
        } else if h == i {
            assert(!orders[j].contains(label));
        } else if h == j {
            assert(!orders[i].contains(label));
        } else {
            assert(!orders[i].contains(label));
            assert(!orders[j].contains(label));
        }
        assert(next[t].contains(label));
        assert(next[hub].contains(label));
        assert forall|u: int| 0 <= u < next.len() && u != t && u != hub implies !(
        #[trigger] next[u]).contains(label) by {
            let was = if u < j {
                u
            } else {
                u + 1
            };
            assert(next[u] == updated[was]);
            if was != i {
                assert(updated[was] == orders[was]);
            }
        }
        assert(links(next, t, hub, label));
    }
}

/// What is kept of a shape without an axis of size zero has none.
pub proof fn lemma_unshared_positive(shape: Seq<usize>, order: Seq<i32>, other: Seq<i32>, n: nat)
    requires
        n <= order.len(),
        shape.len() == order.len(),
        forall|k: int| 0 <= k < shape.len() ==> (#[trigger] shape[k]) > 0,
    ensures
        forall|k: int|
            0 <= k < unshared_upto(shape, order, other, n).len() ==> (#[trigger] unshared_upto(
                shape,
                order,
                other,
                n,
            )[k]) > 0,
    decreases n,
{
    if n > 0 {
        lemma_unshared_positive(shape, order, other, (n - 1) as nat);
        let before = unshared_upto(shape, order, other, (n - 1) as nat);
        let now = unshared_upto(shape, order, other, n);
        assert(shape[n - 1] > 0);
        assert forall|k: int| 0 <= k < now.len() implies (#[trigger] now[k]) > 0 by {
            if k < before.len() {
                assert(before[k] > 0);
            }
        }
    }
}

/// Where two arrays are replaced by their contraction, no axis of size zero
/// comes up.
pub proof fn lemma_spliced_positive(
    shapes: Seq<Seq<usize>>,
    orders: Seq<Seq<i32>>,
    i: int,
    j: int,
)
    requires
        aligned(shapes, orders),
        no_empty_axis(shapes),
        0 <= i < orders.len(),
        0 <= j < orders.len(),
    ensures
        no_empty_axis(spliced(shapes, orders, i, j)),
{
    let left = unshared(shapes[i], orders[i], orders[j]);
    let right = unshared(shapes[j], orders[j], orders[i]);
    assert(shapes[i].len() == orders[i].len());
    assert(shapes[j].len() == orders[j].len());
    assert forall|k: int| 0 <= k < shapes[i].len() implies (#[trigger] shapes[i][k]) > 0 by {}
    assert forall|k: int| 0 <= k < shapes[j].len() implies (#[trigger] shapes[j][k]) > 0 by {}
    lemma_unshared_positive(shapes[i], orders[i], orders[j], orders[i].len());
    lemma_unshared_positive(shapes[j], orders[j], orders[i], orders[j].len());
    let next = spliced(shapes, orders, i, j);
    assert forall|t: int, k: int| 0 <= t < next.len() && 0 <= k < next[t].len() implies (
    #[trigger] next[t][k]) > 0 by {
        let from = if t < j {
            t
        } else {
            t + 1
        };
        if from == i {
            if k < left.len() {
                assert(next[t][k] == left[k]);
            } else {
                assert(next[t][k] == right[k - left.len()]);
            }
        } else {
            assert(next[t][k] == shapes[from][k]);
        }
    }
}

/// The size that an array shares with another is positive if they have a
/// label in common and the array has no axis of size zero, and only if they
/// have a label in common.
pub proof fn lemma_shared_extent(shape: Seq<usize>, order: Seq<i32>, other: Seq<i32>, n: nat)
    requires
        n <= order.len(),
        shape.len() == order.len(),
    ensures
        shared_extent_upto(shape, order, other, n) > 0 ==> share_label(order, other),
        forall|label: i32|
            (forall|k: int| 0 <= k < shape.len() ==> (#[trigger] shape[k]) > 0) && other.contains(
                label,
            ) && first_index(order, label) < n ==> shared_extent_upto(shape, order, other, n) > 0,
    decreases n,
{
    if n > 0 {
        lemma_shared_extent(shape, order, other, (n - 1) as nat);
        let last = order[n - 1];
        if other.contains(last) && first_index(order, last) == n - 1 {
            assert(order.contains(last));
        }
        assert forall|label: i32|
            (forall|k: int| 0 <= k < shape.len() ==> (#[trigger] shape[k]) > 0) && other.contains(
                label,
            ) && first_index(order, label) < n implies shared_extent_upto(shape, order, other, n)
            > 0 by {
            if first_index(order, label) == n - 1 {
                lemma_first_index(order, label);
                assert(order[n - 1] == label);
                assert(shape[n - 1] > 0);
            }
        }
    }
}

/// The other arrays of a list without an axis of size zero have at least
/// one element together.
pub proof fn lemma_others_volume_positive(shapes: Seq<Seq<usize>>, i: int, j: int, n: nat)
    requires
        n <= shapes.len(),
        no_empty_axis(shapes),
    ensures
        others_volume_upto(shapes, i, j, n) >= 1,
    decreases n,
{
    if n > 0 {
        lemma_others_volume_positive(shapes, i, j, (n - 1) as nat);
        let shape = shapes[n - 1];
        assert forall|k: int| 0 <= k < shape.len() implies shape[k] != 0 by {
            assert(shapes[n - 1][k] > 0);
        }
        lemma_volume_monotone(shape, shape.len(), shape.len());
        let before = others_volume_upto(shapes, i, j, (n - 1) as nat);
        let here = volume(shape);
        assert(before * here >= 1) by (nonlinear_arith)
            requires
                before >= 1,
                here >= 1,
        ;
    }
}

/// The largest of some values is one of them, or zero, and none is larger.
pub proof fn lemma_largest_upto(values: Seq<nat>, n: nat)
    requires
        n <= values.len(),
    ensures
        forall|k: int| 0 <= k < n ==> (#[trigger] values[k]) <= largest_upto(values, n),
        largest_upto(values, n) > 0 ==> exists|k: int|
            0 <= k < n && #[trigger] values[k] == largest_upto(values, n),
    decreases n,
{
    if n > 0 {
        lemma_largest_upto(values, (n - 1) as nat);
        let before = largest_upto(values, (n - 1) as nat);
        if values[n - 1] > before {
            let k = n - 1;
            assert(0 <= k < n && values[k] == largest_upto(values, n));
        } else if before > 0 {
            let k = choose|k: int| 0 <= k < n - 1 && #[trigger] values[k] == before;
            assert(0 <= k < n && values[k] == largest_upto(values, n));
        }
    }
}

/// The sum of some values is at least each of them.
pub proof fn lemma_total_upto(values: Seq<nat>, n: nat)
    requires
        n <= values.len(),
    ensures
        forall|k: int| 0 <= k < n ==> (#[trigger] values[k]) <= total_upto(values, n),
    decreases n,
{
    if n > 0 {
        lemma_total_upto(values, (n - 1) as nat);
    }
}

/// Among arrays that have a hub and no axis of size zero, the pair that is
/// contracted next has a label in common.
pub proof fn lemma_next_pair_shares(shapes: Seq<Seq<usize>>, orders: Seq<Seq<i32>>, h: int)
    requires
        aligned(shapes, orders),
        no_empty_axis(shapes),
        is_hub(orders, h),
        orders.len() >= 2,
    ensures
        0 <= next_pair(shapes, orders).0 < orders.len(),
        0 <= next_pair(shapes, orders).1 < orders.len(),
        next_pair(shapes, orders).0 != next_pair(shapes, orders).1,
        share_label(
            orders[next_pair(shapes, orders).0],
            orders[next_pair(shapes, orders).1],
        ),
{
    let n = orders.len();
    let matrix = score_matrix(shapes, orders);
    let sums = row_sums(matrix);
    let (i, j) = next_pair(shapes, orders);
    lemma_first_best_upto(sums, -1, n);
    lemma_first_best_upto(matrix[i], i, n);
    // Some array scores with the hub.
    let t = if h == 0 {
        1int
    } else {
        0int
    };
    lemma_pair_scores(shapes, orders, t, h);
    // So the best score is positive, and some row holds it.
    let peaks = row_peaks(matrix);
    lemma_largest_upto(matrix[t], n);
    assert(matrix[t][h] == score(shapes, orders, t, h));
    assert(peaks[t] == largest(matrix[t]));
    lemma_largest_upto(peaks, n);
    let top = matrix_largest(matrix);
    assert(top >= peaks[t]);
    let r = choose|r: int| 0 <= r < n && #[trigger] peaks[r] == top;
    lemma_total_upto(matrix[r], n);
    lemma_largest_upto(matrix[r], n);
    let c = choose|c: int| 0 <= c < n && #[trigger] matrix[r][c] == largest(matrix[r]);
    assert(sums[r] == total(matrix[r]));
    assert(sums[r] >= matrix[r][c]);
    // The row that is selected holds it too, off the diagonal.
    assert(sums[i] >= sums[r]);
    assert(largest(matrix[i]) == top);
    lemma_largest_upto(matrix[i], n);
    let best = choose|best: int| 0 <= best < n && #[trigger] matrix[i][best] == largest(matrix[i]);
    assert(matrix[i][i] == score(shapes, orders, i, i));
    assert(best != i);
    assert(matrix[i][j] >= matrix[i][best]);
    assert(matrix[i][j] == score(shapes, orders, i, j));
    lemma_score_shares(shapes, orders, i, j);
}

/// An array scores with the hub, where no array has an axis of size zero.
proof fn lemma_pair_scores(shapes: Seq<Seq<usize>>, orders: Seq<Seq<i32>>, t: int, h: int)
    requires
        aligned(shapes, orders),
        no_empty_axis(shapes),
        is_hub(orders, h),
        0 <= t < orders.len(),
        t != h,
    ensures
        score(shapes, orders, t, h) >= 1,
{
    let first = if t < h {
        t
    } else {
        h
    };
    let second = if t < h {
        h
    } else {
        t
    };
    assert(linked(orders, t, h));
    let label = choose|label: i32| links(orders, t, h, label);
    assert(shapes[first].len() == orders[first].len());
    assert forall|k: int| 0 <= k < shapes[first].len() implies (#[trigger] shapes[first][k]) > 0 by {}
    lemma_first_index(orders[first], label);
    lemma_shared_extent(shapes[first], orders[first], orders[second], orders[first].len());
    lemma_others_volume_positive(shapes, first, second, shapes.len());
    let shared = shared_extent(shapes[first], orders[first], orders[second]);
    let others = others_volume_upto(shapes, first, second, shapes.len());
    assert(shared * others >= 1) by (nonlinear_arith)
        requires
            shared >= 1,
            others >= 1,
    ;
}

/// Two arrays that score have a label in common.
proof fn lemma_score_shares(shapes: Seq<Seq<usize>>, orders: Seq<Seq<i32>>, i: int, j: int)
    requires
        aligned(shapes, orders),
        0 <= i < orders.len(),
        0 <= j < orders.len(),
        score(shapes, orders, i, j) > 0,
    ensures
        share_label(orders[i], orders[j]),
{
    let first = if i < j {
        i
    } else {
        j
    };
    let second = if i < j {
        j
    } else {
        i
    };
    assert(shapes[first].len() == orders[first].len());
    let shared = shared_extent(shapes[first], orders[first], orders[second]);
    let others = others_volume_upto(shapes, first, second, shapes.len());
    assert(shared > 0) by (nonlinear_arith)
        requires
            shared * others > 0,
            shared >= 0,
            others >= 0,
    ;
    lemma_shared_extent(shapes[first], orders[first], orders[second], orders[first].len());
    let label = choose|label: i32|
        orders[first].contains(label) && #[trigger] orders[second].contains(label);
    assert(orders[i].contains(label) && orders[j].contains(label));
}

/// Among arrays that have a hub and no axis of size zero, every step of the
/// greedy plan contracts two arrays that have a label in common.
pub proof fn lemma_steps_share(
    shapes: Seq<Seq<usize>>,
    orders: Seq<Seq<i32>>,
    h: int,
    steps: nat,
)
    requires
        aligned(shapes, orders),
        no_empty_axis(shapes),
        is_hub(orders, h),
        steps + 1 <= orders.len(),
    ensures
        every_step_shares(shapes, orders, steps),
    decreases steps,
{
    if steps > 0 {
        lemma_next_pair_shares(shapes, orders, h);
        let (i, j) = next_pair(shapes, orders);
        lemma_spliced_aligned(shapes, orders, i, j);
        lemma_spliced_positive(shapes, orders, i, j);
        lemma_spliced_hub(orders, h, i, j);
        let hub = if h == i || h == j {
            if i < j {
                i
            } else {
                i - 1
            }
        } else if h < j {
            h
        } else {
            h - 1
        };
        lemma_steps_share(
            spliced(shapes, orders, i, j),
            spliced(orders, orders, i, j),
            hub,
            (steps - 1) as nat,
        );
    }
}

/// Every step of the plan for arrays without an axis of size zero contracts
/// two arrays that have a label in common: the extra axes see to it.
pub proof fn lemma_plan_shares(shapes: Seq<Seq<usize>>, orders: Seq<Seq<i32>>)
    requires
        aligned(shapes, orders),
        no_empty_axis(shapes),
        labels_have_room(orders),
        orders.len() >= 1,
    ensures
        every_step_shares(
            normalized_shapes(shapes),
            normalized_orders(orders),
            (orders.len() - 1) as nat,
        ),
{
    let lifted_shapes = normalized_shapes(shapes);
    let lifted_orders = normalized_orders(orders);
    lemma_normalized_aligned(shapes, orders);
    lemma_normalized_hub(orders);
    assert forall|t: int, k: int|
        0 <= t < lifted_shapes.len() && 0 <= k < lifted_shapes[t].len() implies (
    #[trigger] lifted_shapes[t][k]) > 0 by {
        if k < shapes[t].len() {
            assert(lifted_shapes[t][k] == shapes[t][k]);
        }
    }
    lemma_steps_share(lifted_shapes, lifted_orders, orders.len() - 1, (orders.len() - 1) as nat);
}

} // verus!
