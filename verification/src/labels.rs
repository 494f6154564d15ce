//! Label orders: one integer label for each axis of an array.

use vstd::prelude::*;

verus! {

/// The label orders (or shapes) of a list of arrays, one sequence for each.
pub open spec fn rows<T>(lists: Seq<Vec<T>>) -> Seq<Seq<T>> {
    Seq::new(lists.len(), |t: int| lists[t]@)
}

/// Shapes and label orders describe the same arrays: there is one label order
/// for each shape, with one label for each axis.
pub open spec fn aligned(shapes: Seq<Seq<usize>>, orders: Seq<Seq<i32>>) -> bool {
    &&& shapes.len() == orders.len()
    &&& forall|t: int| 0 <= t < shapes.len() ==> (#[trigger] shapes[t]).len() == orders[t].len()
}

/// Axis `k` of array `t` is an axis of the list.
pub open spec fn is_axis(orders: Seq<Seq<i32>>, t: int, k: int) -> bool {
    0 <= t < orders.len() && 0 <= k < orders[t].len()
}

/// How often `label` occurs among the first `n` entries of `order`.
pub open spec fn occurrences_upto(order: Seq<i32>, label: i32, n: nat) -> nat
    decreases n,
{
    if n == 0 {
        0
    } else if order[n - 1] == label {
        occurrences_upto(order, label, (n - 1) as nat) + 1
    } else {
        occurrences_upto(order, label, (n - 1) as nat)
    }
}

/// How often `label` occurs in `order`.
pub open spec fn occurrences(order: Seq<i32>, label: i32) -> nat {
    occurrences_upto(order, label, order.len())
}

/// How often `label` occurs in the first `n` label orders together.
pub open spec fn total_occurrences_upto(orders: Seq<Seq<i32>>, label: i32, n: nat) -> nat
    decreases n,
{
    if n == 0 {
        0
    } else {
        total_occurrences_upto(orders, label, (n - 1) as nat) + occurrences(orders[n - 1], label)
    }
}

/// How often `label` occurs in all label orders together.
pub open spec fn total_occurrences(orders: Seq<Seq<i32>>, label: i32) -> nat {
    total_occurrences_upto(orders, label, orders.len())
}

/// Position of the first of the first `n` entries of `order` that is `label`;
/// `n` if none of them is.
pub open spec fn first_index_upto(order: Seq<i32>, label: i32, n: nat) -> nat
    decreases n,
{
    if n == 0 {
        0
    } else {
        let before = first_index_upto(order, label, (n - 1) as nat);
        if before < n - 1 {
            before
        } else if order[n - 1] == label {
            (n - 1) as nat
        } else {
            n
        }
    }
}

/// Position of the first entry of `order` that is `label`; the length of
/// `order` if `label` does not occur.
pub open spec fn first_index(order: Seq<i32>, label: i32) -> nat {
    first_index_upto(order, label, order.len())
}

/// The entries of `values` among the first `n` whose label in `order` labels
/// no axis in `other`, in their order.
pub open spec fn unshared_upto<T>(values: Seq<T>, order: Seq<i32>, other: Seq<i32>, n: nat) -> Seq<
    T,
>
    decreases n,
{
    if n == 0 {
        Seq::empty()
    } else if other.contains(order[n - 1]) {
        unshared_upto(values, order, other, (n - 1) as nat)
    } else {
        unshared_upto(values, order, other, (n - 1) as nat).push(values[n - 1])
    }
}

/// What is left of `values`, the sizes or the labels of an array with label
/// order `order`, once the axes are dropped whose label also labels an axis
/// of the array with label order `other`.
pub open spec fn unshared<T>(values: Seq<T>, order: Seq<i32>, other: Seq<i32>) -> Seq<T> {
    unshared_upto(values, order, other, order.len())
}

/// The labels among the first `n` of `order` that occur exactly once in the
/// whole of `order`, in their order.
pub open spec fn singles_upto(order: Seq<i32>, n: nat) -> Seq<i32>
    decreases n,
{
    if n == 0 {
        Seq::empty()
    } else if occurrences(order, order[n - 1]) == 1 {
        singles_upto(order, (n - 1) as nat).push(order[n - 1])
    } else {
        singles_upto(order, (n - 1) as nat)
    }
}

/// The labels of `order` that occur exactly once in it, in their order.
pub open spec fn singles(order: Seq<i32>) -> Seq<i32> {
    singles_upto(order, order.len())
}

/// The label order of the contraction of two arrays: the labels of the first
/// followed by those of the second, without the labels that occur more than
/// once among them.
pub open spec fn merged_order(a: Seq<i32>, b: Seq<i32>) -> Seq<i32> {
    singles(a + b)
}

/// The labels that two arrays share, among the first `n` of the first array,
/// each once, in the order in which the first array first carries them.
pub open spec fn shared_labels_upto(a: Seq<i32>, b: Seq<i32>, n: nat) -> Seq<i32>
    decreases n,
{
    if n == 0 {
        Seq::empty()
    } else if b.contains(a[n - 1]) && first_index(a, a[n - 1]) == n - 1 {
        shared_labels_upto(a, b, (n - 1) as nat).push(a[n - 1])
    } else {
        shared_labels_upto(a, b, (n - 1) as nat)
    }
}

/// The labels that two arrays share, each once, in the order in which the
/// first array first carries them.
pub open spec fn shared_labels(a: Seq<i32>, b: Seq<i32>) -> Seq<i32> {
    shared_labels_upto(a, b, a.len())
}

/// For each of `labels` the first axis of `order` that carries it.
pub open spec fn positions(order: Seq<i32>, labels: Seq<i32>) -> Seq<usize> {
    Seq::new(labels.len(), |k: int| first_index(order, labels[k]) as usize)
}

/// The axis pairs over which two arrays are contracted, as a flat list: for
/// each shared label its axis in the first array, then for each its axis in
/// the second.
pub open spec fn axis_pairs(a: Seq<i32>, b: Seq<i32>) -> Seq<usize> {
    positions(a, shared_labels(a, b)) + positions(b, shared_labels(a, b))
}

/// Whether `label` labels an axis in `order`.
pub fn has_label(order: &Vec<i32>, label: i32) -> (found: bool)
    ensures
        found == order@.contains(label),
{
    let mut k: usize = 0;
    while k < order.len()
        invariant
            k <= order.len(),
            forall|m: int| 0 <= m < k ==> order[m] != label,
        decreases order.len() - k,
    {
        if order[k] == label {
            return true;
        }
        k = k + 1;
    }
    false
}

/// The first axis that `label` labels in `order`; the length of `order` if
/// there is none.
pub fn position(order: &Vec<i32>, label: i32) -> (at: usize)
    ensures
        at == first_index(order@, label),
{
    let mut k: usize = 0;
    while k < order.len()
        invariant
            k <= order.len(),
            first_index_upto(order@, label, k as nat) == k,
        decreases order.len() - k,
    {
        if order[k] == label {
            proof {
                lemma_first_index_upto(order@, label, k as nat);
                lemma_first_index_is(order@, label, k as int);
            }
            return k;
        }
        k = k + 1;
    }
    k
}

/// How often `label` occurs in `order`.
pub fn count_label(order: &Vec<i32>, label: i32) -> (count: usize)
    ensures
        count == occurrences(order@, label),
{
    let mut count: usize = 0;
    let mut k: usize = 0;
    while k < order.len()
        invariant
            k <= order.len(),
            count <= k,
            count == occurrences_upto(order@, label, k as nat),
        decreases order.len() - k,
    {
        if order[k] == label {
            count = count + 1;
        }
        k = k + 1;
    }
    count
}

/// Keeps of `values` what belongs to the axes whose label does not label an
/// axis in `other`.
pub fn keep_unshared<T: Copy>(values: &Vec<T>, order: &Vec<i32>, other: &Vec<i32>) -> (kept: Vec<T>)
    requires
        values@.len() == order@.len(),
    ensures
        kept@ == unshared(values@, order@, other@),
{
    let mut kept: Vec<T> = Vec::new();
    let mut k: usize = 0;
    while k < order.len()
        invariant
            k <= order.len(),
            values@.len() == order@.len(),
            kept@ == unshared_upto(values@, order@, other@, k as nat),
        decreases order.len() - k,
    {
        if !has_label(other, order[k]) {
            kept.push(values[k]);
        }
        k = k + 1;
    }
    kept
}

/// What the first position is.
pub proof fn lemma_first_index_upto(order: Seq<i32>, label: i32, n: nat)
    requires
        n <= order.len(),
    ensures
        first_index_upto(order, label, n) <= n,
        first_index_upto(order, label, n) < n ==> order[first_index_upto(order, label, n) as int]
            == label,
        forall|k: int| 0 <= k < first_index_upto(order, label, n) ==> order[k] != label,
    decreases n,
{
    if n > 0 {
        lemma_first_index_upto(order, label, (n - 1) as nat);
    }
}

/// The first position of a label is a position exactly if the label occurs,
/// and then it holds the label and no earlier position does.
pub proof fn lemma_first_index(order: Seq<i32>, label: i32)
    ensures
        first_index(order, label) <= order.len(),
        first_index(order, label) < order.len() <==> order.contains(label),
        first_index(order, label) < order.len() ==> order[first_index(order, label) as int]
            == label,
        forall|k: int| 0 <= k < first_index(order, label) ==> order[k] != label,
{
    lemma_first_index_upto(order, label, order.len());
}

/// A position that holds a label and has no equal label before it is the
/// label's first position.
pub proof fn lemma_first_index_is(order: Seq<i32>, label: i32, at: int)
    requires
        0 <= at < order.len(),
        order[at] == label,
        forall|k: int| 0 <= k < at ==> order[k] != label,
    ensures
        first_index(order, label) == at,
{
    lemma_first_index(order, label);
}

/// Counting over a prefix depends on that prefix only.
pub proof fn lemma_occurrences_prefix(a: Seq<i32>, b: Seq<i32>, label: i32, n: nat)
    requires
        n <= a.len(),
        n <= b.len(),
        forall|k: int| 0 <= k < n ==> a[k] == b[k],
    ensures
        occurrences_upto(a, label, n) == occurrences_upto(b, label, n),
    decreases n,
{
    if n > 0 {
        lemma_occurrences_prefix(a, b, label, (n - 1) as nat);
    }
}

/// A label occurs at least once exactly if the order contains it.
pub proof fn lemma_occurrences_contains(order: Seq<i32>, label: i32, n: nat)
    requires
        n <= order.len(),
    ensures
        occurrences_upto(order, label, n) <= n,
        occurrences_upto(order, label, n) > 0 <==> exists|k: int| 0 <= k < n && order[k] == label,
    decreases n,
{
    if n > 0 {
        lemma_occurrences_contains(order, label, (n - 1) as nat);
        if occurrences_upto(order, label, (n - 1) as nat) > 0 {
            let k = choose|k: int| 0 <= k < n - 1 && order[k] == label;
            assert(0 <= k < n && order[k] == label);
        } else if order[n - 1] == label {
            assert(0 <= n - 1 < n && order[n - 1] == label);
        }
    }
}

/// Occurrences add up over a concatenation.
pub proof fn lemma_occurrences_concat(a: Seq<i32>, b: Seq<i32>, label: i32)
    ensures
        occurrences(a + b, label) == occurrences(a, label) + occurrences(b, label),
{
    lemma_occurrences_concat_upto(a, b, label, b.len());
}

proof fn lemma_occurrences_concat_upto(a: Seq<i32>, b: Seq<i32>, label: i32, n: nat)
    requires
        n <= b.len(),
    ensures
        occurrences_upto(a + b, label, a.len() + n) == occurrences(a, label) + occurrences_upto(
            b,
            label,
            n,
        ),
    decreases n,
{
    if n == 0 {
        lemma_occurrences_prefix(a + b, a, label, a.len());
    } else {
        lemma_occurrences_concat_upto(a, b, label, (n - 1) as nat);
        assert((a + b)[a.len() + n - 1] == b[n - 1]);
    }
}

/// In an order without repeated labels no label occurs twice.
pub proof fn lemma_occurrences_distinct(order: Seq<i32>, label: i32, n: nat)
    requires
        n <= order.len(),
        order.no_duplicates(),
    ensures
        occurrences_upto(order, label, n) <= 1,
    decreases n,
{
    if n > 0 {
        lemma_occurrences_distinct(order, label, (n - 1) as nat);
        lemma_occurrences_contains(order, label, (n - 1) as nat);
    }
}

/// Counting further never lowers the count.
pub proof fn lemma_occurrences_monotone(order: Seq<i32>, label: i32, m: nat, n: nat)
    requires
        m <= n,
    ensures
        occurrences_upto(order, label, m) <= occurrences_upto(order, label, n),
    decreases n,
{
    if m < n {
        lemma_occurrences_monotone(order, label, m, (n - 1) as nat);
    }
}

/// Axes that do not carry the label add nothing to its count.
pub proof fn lemma_occurrences_none(order: Seq<i32>, label: i32, m: nat, n: nat)
    requires
        m <= n,
        forall|k: int| m <= k < n ==> order[k] != label,
    ensures
        occurrences_upto(order, label, m) == occurrences_upto(order, label, n),
    decreases n,
{
    if m < n {
        lemma_occurrences_none(order, label, m, (n - 1) as nat);
    }
}

/// A label on two axes occurs at least twice.
pub proof fn lemma_two_occurrences(order: Seq<i32>, a: int, b: int)
    requires
        0 <= a < b < order.len(),
        order[a] == order[b],
    ensures
        occurrences(order, order[a]) >= 2,
{
    let label = order[a];
    lemma_occurrences_monotone(order, label, (a + 1) as nat, b as nat);
    lemma_occurrences_monotone(order, label, (b + 1) as nat, order.len());
}

/// What is kept of two lists of values that belong to the same axes has the
/// same length.
pub proof fn lemma_unshared_len<S, T>(
    first: Seq<S>,
    second: Seq<T>,
    order: Seq<i32>,
    other: Seq<i32>,
    n: nat,
)
    ensures
        unshared_upto(first, order, other, n).len() == unshared_upto(second, order, other, n).len(),
        unshared_upto(first, order, other, n).len() <= n,
    decreases n,
{
    if n > 0 {
        lemma_unshared_len(first, second, order, other, (n - 1) as nat);
    }
}

} // verus!
