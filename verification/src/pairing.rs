//! How the axes of two arrays pair up for a contraction, and why the labels
//! of the result follow its axes.

use vstd::prelude::*;
use crate::labels::{
    axis_pairs, first_index, lemma_first_index, lemma_first_index_is, lemma_occurrences_concat,
    lemma_occurrences_contains, lemma_occurrences_distinct, merged_order, occurrences, positions,
    shared_labels, shared_labels_upto, singles_upto, unshared, unshared_upto,
};
use crate::shape::{axes_in_range, free_axes, pick};
use crate::tendot::{dot_shape, left_half, right_half};

verus! {

/// What the shared labels are: labels of both arrays, each once.
pub proof fn lemma_shared_labels_upto(a: Seq<i32>, b: Seq<i32>, n: nat)
    requires
        n <= a.len(),
    ensures
        shared_labels_upto(a, b, n).len() <= n,
        shared_labels_upto(a, b, n).no_duplicates(),
        forall|m: int|
            0 <= m < shared_labels_upto(a, b, n).len() ==> b.contains(
                #[trigger] shared_labels_upto(a, b, n)[m],
            ) && first_index(a, shared_labels_upto(a, b, n)[m]) < n,
        forall|k: int|
            0 <= k < n && b.contains(a[k]) && first_index(a, a[k]) == k ==> shared_labels_upto(
                a,
                b,
                n,
            ).contains(#[trigger] a[k]),
    decreases n,
{
    if n > 0 {
        lemma_shared_labels_upto(a, b, (n - 1) as nat);
        let before = shared_labels_upto(a, b, (n - 1) as nat);
        let now = shared_labels_upto(a, b, n);
        let label = a[n - 1];
        if b.contains(label) && first_index(a, label) == n - 1 {
            assert(now == before.push(label));
            assert(now[now.len() - 1] == label);
            assert forall|k: int|
                0 <= k < n && b.contains(a[k]) && first_index(a, a[k]) == k implies now.contains(
                #[trigger] a[k],
            ) by {
                if k < n - 1 {
                    let m = choose|m: int| 0 <= m < before.len() && before[m] == a[k];
                    assert(now[m] == a[k]);
                }
            }
        } else {
            assert forall|k: int|
                0 <= k < n && b.contains(a[k]) && first_index(a, a[k]) == k implies now.contains(
                #[trigger] a[k],
            ) by {
                assert(k < n - 1);
            }
        }
    }
}

/// The flat list of axis pairs falls into the axes of the first array and
/// those of the second; each half names axes of its array, and none twice.
pub proof fn lemma_axis_pairs(a: Seq<i32>, b: Seq<i32>)
    requires
        a.len() <= usize::MAX,
        b.len() <= usize::MAX,
    ensures
        left_half(axis_pairs(a, b)) == positions(a, shared_labels(a, b)),
        right_half(axis_pairs(a, b)) == positions(b, shared_labels(a, b)),
        axis_pairs(a, b).len() % 2 == 0,
        axes_in_range(positions(a, shared_labels(a, b)), a.len()),
        axes_in_range(positions(b, shared_labels(a, b)), b.len()),
        positions(a, shared_labels(a, b)).no_duplicates(),
        positions(b, shared_labels(a, b)).no_duplicates(),
{
    let shared = shared_labels(a, b);
    let left = positions(a, shared);
    let right = positions(b, shared);
    lemma_shared_labels_upto(a, b, a.len());
    assert(left_half(axis_pairs(a, b)) =~= left);
    assert(right_half(axis_pairs(a, b)) =~= right);
    assert forall|m: int| 0 <= m < shared.len() implies a.contains(#[trigger] shared[m])
        && b.contains(shared[m]) by {
        lemma_first_index(a, shared[m]);
    }
    lemma_positions(a, shared);
    lemma_positions(b, shared);
    assert forall|m: int, k: int|
        0 <= m < left.len() && 0 <= k < left.len() && m != k implies left[m]
        != left[k] by {
        assert(a[left[m] as int] == shared[m]);
        assert(a[left[k] as int] == shared[k]);
    }
    assert forall|m: int, k: int|
        0 <= m < right.len() && 0 <= k < right.len() && m != k implies right[m] != right[k] by {
        assert(b[right[m] as int] == shared[m]);
        assert(b[right[k] as int] == shared[k]);
    }
}

/// The first axis that carries a label of the order is an axis of the
/// order, and carries that label.
pub proof fn lemma_positions(order: Seq<i32>, labels: Seq<i32>)
    requires
        order.len() <= usize::MAX,
        forall|m: int| 0 <= m < labels.len() ==> order.contains(#[trigger] labels[m]),
    ensures
        forall|m: int|
            0 <= m < labels.len() ==> (#[trigger] positions(order, labels)[m]) < order.len()
                && order[positions(order, labels)[m] as int] == labels[m],
{
    assert forall|m: int| 0 <= m < labels.len() implies (#[trigger] positions(order, labels)[m])
        < order.len() && order[positions(order, labels)[m] as int] == labels[m] by {
        assert(order.contains(labels[m]));
        lemma_first_index(order, labels[m]);
    }
}

/// In an order without repeated labels every label is its own first
/// occurrence.
pub proof fn lemma_distinct_first_index(order: Seq<i32>, k: int)
    requires
        order.no_duplicates(),
        0 <= k < order.len(),
    ensures
        first_index(order, order[k]) == k,
{
    lemma_first_index_is(order, order[k], k);
}

/// Where no array carries a label twice, the contracted axes of the first
/// array are its axes with a label that the second array carries too, and
/// the other way round.
pub proof fn lemma_taken_axes(a: Seq<i32>, b: Seq<i32>)
    requires
        a.no_duplicates(),
        b.no_duplicates(),
        a.len() <= usize::MAX,
        b.len() <= usize::MAX,
    ensures
        forall|k: int|
            0 <= k < a.len() ==> (positions(a, shared_labels(a, b)).contains(k as usize)
                <==> b.contains(#[trigger] a[k])),
        forall|k: int|
            0 <= k < b.len() ==> (positions(b, shared_labels(a, b)).contains(k as usize)
                <==> a.contains(#[trigger] b[k])),
{
    let shared = shared_labels(a, b);
    let left = positions(a, shared);
    let right = positions(b, shared);
    lemma_shared_labels_upto(a, b, a.len());
    assert forall|m: int| 0 <= m < shared.len() implies a.contains(#[trigger] shared[m])
        && b.contains(shared[m]) by {
        lemma_first_index(a, shared[m]);
    }
    lemma_positions(a, shared);
    lemma_positions(b, shared);
    assert forall|k: int| 0 <= k < a.len() implies (left.contains(k as usize) <==> b.contains(
        #[trigger] a[k],
    )) by {
        if b.contains(a[k]) {
            lemma_distinct_first_index(a, k);
            assert(shared.contains(a[k]));
            let m = choose|m: int| 0 <= m < shared.len() && shared[m] == a[k];
            assert(left[m] == k);
        }
        if left.contains(k as usize) {
            let m = choose|m: int| 0 <= m < left.len() && left[m] == k as usize;
            assert(a[left[m] as int] == shared[m]);
            assert(b.contains(shared[m]));
        }
    }
    assert forall|k: int| 0 <= k < b.len() implies (right.contains(k as usize) <==> a.contains(
        #[trigger] b[k],
    )) by {
        if a.contains(b[k]) {
            let label = b[k];
            lemma_first_index(a, label);
            let at = first_index(a, label) as int;
            assert(a[at] == label);
            assert(b.contains(a[at]));
            assert(shared.contains(a[at]));
            let m = choose|m: int| 0 <= m < shared.len() && shared[m] == label;
            lemma_distinct_first_index(b, k);
            assert(right[m] == k);
        }
        if right.contains(k as usize) {
            let m = choose|m: int| 0 <= m < right.len() && right[m] == k as usize;
            assert(b[right[m] as int] == shared[m]);
            assert(a[left[m] as int] == shared[m]);
        }
    }
}

/// Where the contracted axes are those whose label the other array carries
/// too, the free axes hold what is left once the shared labels are dropped.
pub proof fn lemma_free_is_unshared<T>(
    values: Seq<T>,
    order: Seq<i32>,
    other: Seq<i32>,
    taken: Seq<usize>,
    n: nat,
)
    requires
        n <= order.len() <= usize::MAX,
        forall|k: int|
            0 <= k < order.len() ==> (taken.contains(k as usize) <==> other.contains(
                #[trigger] order[k],
            )),
    ensures
        pick(values, free_axes(taken, n)) == unshared_upto(values, order, other, n),
    decreases n,
{
    if n > 0 {
        lemma_free_is_unshared(values, order, other, taken, (n - 1) as nat);
        let below = free_axes(taken, (n - 1) as nat);
        assert(taken.contains((n - 1) as usize) <==> other.contains(order[n - 1]));
        if !taken.contains((n - 1) as usize) {
            assert(pick(values, below.push((n - 1) as usize)) =~= pick(values, below).push(
                values[n - 1],
            ));
        }
    } else {
        assert(pick(values, free_axes(taken, 0)) =~= Seq::<T>::empty());
    }
}

/// Where no array carries a label twice, the labels that occur once among
/// the labels of both are the labels that the arrays do not share.
pub proof fn lemma_merged_is_unshared(a: Seq<i32>, b: Seq<i32>)
    requires
        a.no_duplicates(),
        b.no_duplicates(),
    ensures
        merged_order(a, b) == unshared(a, a, b) + unshared(b, b, a),
{
    lemma_singles_left(a, b, a.len());
    lemma_singles_right(a, b, b.len());
}

proof fn lemma_count_in_both(a: Seq<i32>, b: Seq<i32>, label: i32)
    requires
        a.no_duplicates(),
        b.no_duplicates(),
    ensures
        occurrences(a + b, label) == 1 <==> (a.contains(label) != b.contains(label)),
{
    lemma_occurrences_concat(a, b, label);
    lemma_occurrences_distinct(a, label, a.len());
    lemma_occurrences_distinct(b, label, b.len());
    lemma_occurrences_contains(a, label, a.len());
    lemma_occurrences_contains(b, label, b.len());
}

proof fn lemma_singles_left(a: Seq<i32>, b: Seq<i32>, n: nat)
    requires
        a.no_duplicates(),
        b.no_duplicates(),
        n <= a.len(),
    ensures
        singles_upto(a + b, n) == unshared_upto(a, a, b, n),
    decreases n,
{
    if n > 0 {
        lemma_singles_left(a, b, (n - 1) as nat);
        let label = a[n - 1];
        assert((a + b)[n - 1] == label);
        assert(a.contains(label));
        lemma_count_in_both(a, b, label);
    }
}

proof fn lemma_singles_right(a: Seq<i32>, b: Seq<i32>, n: nat)
    requires
        a.no_duplicates(),
        b.no_duplicates(),
        n <= b.len(),
    ensures
        singles_upto(a + b, a.len() + n) == unshared(a, a, b) + unshared_upto(b, b, a, n),
    decreases n,
{
    if n > 0 {
        lemma_singles_right(a, b, (n - 1) as nat);
        let label = b[n - 1];
        assert((a + b)[a.len() + n - 1] == label);
        assert(b.contains(label));
        lemma_count_in_both(a, b, label);
        let before = unshared_upto(b, b, a, (n - 1) as nat);
        if !a.contains(label) {
            assert((unshared(a, a, b) + before).push(label) =~= unshared(a, a, b) + before.push(
                label,
            ));
        }
    } else {
        lemma_singles_left(a, b, a.len());
        assert(unshared(a, a, b) + unshared_upto(b, b, a, 0) =~= unshared(a, a, b));
    }
}

/// Where no array carries a label twice, the contraction over the shared
/// labels leaves the axes whose labels the arrays do not share: the merged
/// label order names the axes of the result one by one.
pub proof fn lemma_labels_follow_axes(
    a_shape: Seq<usize>,
    a: Seq<i32>,
    b_shape: Seq<usize>,
    b: Seq<i32>,
)
    requires
        a.no_duplicates(),
        b.no_duplicates(),
        a_shape.len() == a.len() <= usize::MAX,
        b_shape.len() == b.len() <= usize::MAX,
    ensures
        dot_shape(a_shape, b_shape, axis_pairs(a, b)) == unshared(a_shape, a, b) + unshared(
            b_shape,
            b,
            a,
        ),
        merged_order(a, b) == unshared(a, a, b) + unshared(b, b, a),
        merged_order(a, b) == pick(a, free_axes(left_half(axis_pairs(a, b)), a.len())) + pick(
            b,
            free_axes(right_half(axis_pairs(a, b)), b.len()),
        ),
        merged_order(a, b).len() == dot_shape(a_shape, b_shape, axis_pairs(a, b)).len(),
        merged_order(a, b).no_duplicates(),
{
    lemma_axis_pairs(a, b);
    lemma_taken_axes(a, b);
    lemma_merged_is_unshared(a, b);
    let left = positions(a, shared_labels(a, b));
    let right = positions(b, shared_labels(a, b));
    lemma_free_is_unshared(a_shape, a, b, left, a.len());
    lemma_free_is_unshared(b_shape, b, a, right, b.len());
    lemma_free_is_unshared(a, a, b, left, a.len());
    lemma_free_is_unshared(b, b, a, right, b.len());
    crate::labels::lemma_unshared_len(a_shape, a, a, b, a.len());
    crate::labels::lemma_unshared_len(b_shape, b, b, a, b.len());
    lemma_unshared_distinct(a, b, a.len());
    lemma_unshared_distinct(b, a, b.len());
    let kept_a = unshared(a, a, b);
    let kept_b = unshared(b, b, a);
    let merged = kept_a + kept_b;
    assert forall|i: int, j: int|
        0 <= i < merged.len() && 0 <= j < merged.len() && i != j implies merged[i]
        != merged[j] by {
        if i < kept_a.len() && j >= kept_a.len() {
            assert(kept_b.contains(kept_b[j - kept_a.len()]));
            assert(kept_a.contains(kept_a[i]));
            let k = choose|k: int| 0 <= k < a.len() && a[k] == kept_a[i];
            assert(a.contains(kept_a[i]));
        }
        if j < kept_a.len() && i >= kept_a.len() {
            assert(kept_b.contains(kept_b[i - kept_a.len()]));
            assert(kept_a.contains(kept_a[j]));
            let k = choose|k: int| 0 <= k < a.len() && a[k] == kept_a[j];
            assert(a.contains(kept_a[j]));
        }
    }
}

/// The labels that an array does not share are labels of that array only,
/// and none of them is repeated if the array repeats none.
pub proof fn lemma_unshared_distinct(order: Seq<i32>, other: Seq<i32>, n: nat)
    requires
        order.no_duplicates(),
        n <= order.len(),
    ensures
        unshared_upto(order, order, other, n).no_duplicates(),
        forall|label: i32|
            #[trigger] unshared_upto(order, order, other, n).contains(label) ==> !other.contains(
                label,
            ) && (exists|k: int| 0 <= k < n && order[k] == label),
    decreases n,
{
    if n > 0 {
        lemma_unshared_distinct(order, other, (n - 1) as nat);
        let before = unshared_upto(order, order, other, (n - 1) as nat);
        let now = unshared_upto(order, order, other, n);
        let last = order[n - 1];
        if !other.contains(last) {
            assert(now == before.push(last));
            assert forall|label: i32| now.contains(label) implies !other.contains(label) && (
            exists|k: int| 0 <= k < n && order[k] == label) by {
                let m = choose|m: int| 0 <= m < now.len() && now[m] == label;
                if m < before.len() {
                    assert(before[m] == label);
                    assert(before.contains(label));
                    let k = choose|k: int| 0 <= k < n - 1 && order[k] == label;
                    assert(0 <= k < n && order[k] == label);
                } else {
                    assert(0 <= n - 1 < n && order[n - 1] == label);
                }
            }
            assert forall|i: int, j: int|
                0 <= i < now.len() && 0 <= j < now.len() && i != j implies now[i]
                != now[j] by {
                if i == before.len() {
                    assert(before.contains(before[j]));
                    let k = choose|k: int| 0 <= k < n - 1 && order[k] == before[j];
                    assert(order[k] != order[n - 1]);
                } else if j == before.len() {
                    assert(before.contains(before[i]));
                    let k = choose|k: int| 0 <= k < n - 1 && order[k] == before[i];
                    assert(order[k] != order[n - 1]);
                }
            }
        } else {
            assert forall|label: i32| now.contains(label) implies !other.contains(label) && (
            exists|k: int| 0 <= k < n && order[k] == label) by {
                assert(before.contains(label));
                let k = choose|k: int| 0 <= k < n - 1 && order[k] == label;
                assert(0 <= k < n && order[k] == label);
            }
        }
    }
}

} // verus!
