//! How often a label occurs in a list of arrays, and why a contraction
//! changes that by two at a time.

use vstd::prelude::*;
use crate::labels::{
    lemma_occurrences_concat, lemma_occurrences_contains, lemma_occurrences_distinct,
    lemma_two_occurrences, merged_order, occurrences, occurrences_upto, singles_upto,
    total_occurrences, total_occurrences_upto,
};
use crate::shape::{is_axis_order, pick};
use crate::tencon::{
    first_repeated, label_ceiling, lemma_first_repeated_upto, lemma_partner, normalized_orders,
    partner, reformatted, traced,
};

verus! {

/// Every label occurs in one list of label orders an odd number of times
/// exactly if it does so in the other.
pub open spec fn same_parity(first: Seq<Seq<i32>>, second: Seq<Seq<i32>>) -> bool {
    forall|label: i32|
        (#[trigger] total_occurrences(first, label)) % 2 == total_occurrences(second, label) % 2
}

/// An order of one label holds that label once and no other.
pub proof fn lemma_occurrences_one(entry: i32, label: i32)
    ensures
        occurrences(seq![entry], label) == if entry == label {
            1nat
        } else {
            0nat
        },
{
    assert(seq![entry][0] == entry);
    assert(occurrences_upto(seq![entry], label, 0) == 0);
}

/// An order with one more label at its end.
pub proof fn lemma_occurrences_push(order: Seq<i32>, entry: i32, label: i32)
    ensures
        occurrences(order.push(entry), label) == occurrences(order, label) + if entry == label {
            1nat
        } else {
            0nat
        },
{
    lemma_occurrences_one(entry, label);
    lemma_occurrences_concat(order, seq![entry], label);
    assert(order.push(entry) =~= order + seq![entry]);
}

/// Taking an axis out of an order takes one occurrence of its label.
pub proof fn lemma_occurrences_remove(order: Seq<i32>, at: int, label: i32)
    requires
        0 <= at < order.len(),
    ensures
        occurrences(order.remove(at), label) + (if order[at] == label {
            1nat
        } else {
            0nat
        }) == occurrences(order, label),
{
    let head = order.take(at);
    let tail = order.skip(at + 1);
    assert(order =~= head.push(order[at]) + tail);
    assert(order.remove(at) =~= head + tail);
    lemma_occurrences_concat(head.push(order[at]), tail, label);
    lemma_occurrences_concat(head, tail, label);
    lemma_occurrences_push(head, order[at], label);
}

/// Tracing takes the occurrences of a label two at a time.
pub proof fn lemma_traced_parity(shape: Seq<usize>, order: Seq<i32>, label: i32)
    requires
        shape.len() == order.len(),
    ensures
        traced(shape, order) matches Ok(done) ==> occurrences(done.order, label) % 2
            == occurrences(order, label) % 2,
    decreases order.len(),
{
    let p = first_repeated(order) as int;
    let q = partner(order, p);
    lemma_first_repeated_upto(order, order.len());
    if p < order.len() {
        lemma_partner(order);
        if shape[p] == shape[q] {
            let once = order.remove(q);
            let twice = once.remove(p);
            lemma_occurrences_remove(order, q, label);
            assert(once[p] == order[p]);
            lemma_occurrences_remove(once, p, label);
            lemma_traced_parity(shape.remove(q).remove(p), twice, label);
        }
    }
}

/// The occurrences in the first `n` orders depend on those orders only.
proof fn lemma_total_prefix(first: Seq<Seq<i32>>, second: Seq<Seq<i32>>, label: i32, n: nat)
    requires
        n <= first.len(),
        n <= second.len(),
        forall|t: int| 0 <= t < n ==> first[t] == second[t],
    ensures
        total_occurrences_upto(first, label, n) == total_occurrences_upto(second, label, n),
    decreases n,
{
    if n > 0 {
        lemma_total_prefix(first, second, label, (n - 1) as nat);
    }
}

/// Occurrences add up over two lists of orders.
pub proof fn lemma_total_concat(first: Seq<Seq<i32>>, second: Seq<Seq<i32>>, label: i32)
    ensures
        total_occurrences(first + second, label) == total_occurrences(first, label)
            + total_occurrences(second, label),
{
    lemma_total_concat_upto(first, second, label, second.len());
}

proof fn lemma_total_concat_upto(
    first: Seq<Seq<i32>>,
    second: Seq<Seq<i32>>,
    label: i32,
    n: nat,
)
    requires
        n <= second.len(),
    ensures
        total_occurrences_upto(first + second, label, first.len() + n) == total_occurrences(
            first,
            label,
        ) + total_occurrences_upto(second, label, n),
    decreases n,
{
    if n == 0 {
        lemma_total_prefix(first + second, first, label, first.len());
    } else {
        lemma_total_concat_upto(first, second, label, (n - 1) as nat);
        assert((first + second)[first.len() + n - 1] == second[n - 1]);
    }
}

/// A list of one order holds what that order holds.
pub proof fn lemma_total_one(order: Seq<i32>, label: i32)
    ensures
        total_occurrences(seq![order], label) == occurrences(order, label),
{
    assert(seq![order][0] == order);
    assert(total_occurrences_upto(seq![order], label, 0) == 0);
}

/// Replacing one order of a list changes the occurrences by what the two
/// orders differ in.
pub proof fn lemma_total_update(orders: Seq<Seq<i32>>, at: int, order: Seq<i32>, label: i32)
    requires
        0 <= at < orders.len(),
    ensures
        total_occurrences(orders.update(at, order), label) + occurrences(orders[at], label)
            == total_occurrences(orders, label) + occurrences(order, label),
{
    let head = orders.take(at);
    let tail = orders.skip(at + 1);
    assert(orders =~= head + seq![orders[at]] + tail);
    assert(orders.update(at, order) =~= head + seq![order] + tail);
    lemma_total_concat(head + seq![orders[at]], tail, label);
    lemma_total_concat(head, seq![orders[at]], label);
    lemma_total_concat(head + seq![order], tail, label);
    lemma_total_concat(head, seq![order], label);
    lemma_total_one(orders[at], label);
    lemma_total_one(order, label);
}

/// Taking one order out of a list takes its occurrences.
pub proof fn lemma_total_remove(orders: Seq<Seq<i32>>, at: int, label: i32)
    requires
        0 <= at < orders.len(),
    ensures
        total_occurrences(orders.remove(at), label) + occurrences(orders[at], label)
            == total_occurrences(orders, label),
{
    let head = orders.take(at);
    let tail = orders.skip(at + 1);
    assert(orders =~= head + seq![orders[at]] + tail);
    assert(orders.remove(at) =~= head + tail);
    lemma_total_concat(head + seq![orders[at]], tail, label);
    lemma_total_concat(head, seq![orders[at]], label);
    lemma_total_concat(head, tail, label);
    lemma_total_one(orders[at], label);
}

/// The labels that occur once in an order occur once among themselves, and
/// no other label occurs among them.
pub proof fn lemma_singles_count(order: Seq<i32>, label: i32, n: nat)
    requires
        n <= order.len(),
    ensures
        occurrences(singles_upto(order, n), label) == if occurrences(order, label) == 1 {
            occurrences_upto(order, label, n)
        } else {
            0
        },
    decreases n,
{
    if n > 0 {
        lemma_singles_count(order, label, (n - 1) as nat);
        if occurrences(order, order[n - 1]) == 1 {
            lemma_occurrences_push(singles_upto(order, (n - 1) as nat), order[n - 1], label);
        }
    }
}

/// A merged label order carries no label twice, whatever is merged.
pub proof fn lemma_merged_distinct(a: Seq<i32>, b: Seq<i32>)
    ensures
        merged_order(a, b).no_duplicates(),
{
    let merged = merged_order(a, b);
    assert forall|k: int, m: int| 0 <= k < merged.len() && 0 <= m < merged.len() && k != m
        implies merged[k] != merged[m] by {
        if merged[k] == merged[m] {
            if k < m {
                lemma_two_occurrences(merged, k, m);
            } else {
                lemma_two_occurrences(merged, m, k);
            }
            lemma_singles_count(a + b, merged[k], (a + b).len());
            lemma_occurrences_contains(a + b, merged[k], (a + b).len());
        }
    }
}

/// Merging two label orders that each carry no label twice takes the
/// occurrences of a label two at a time.
pub proof fn lemma_merged_parity(a: Seq<i32>, b: Seq<i32>, label: i32)
    requires
        a.no_duplicates(),
        b.no_duplicates(),
    ensures
        occurrences(merged_order(a, b), label) <= 1,
        occurrences(a, label) <= 1,
        occurrences(b, label) <= 1,
        occurrences(merged_order(a, b), label) % 2 == (occurrences(a, label) + occurrences(
            b,
            label,
        )) % 2,
{
    lemma_singles_count(a + b, label, (a + b).len());
    lemma_occurrences_concat(a, b, label);
    lemma_occurrences_distinct(a, label, a.len());
    lemma_occurrences_distinct(b, label, b.len());
}

/// Replacing two arrays by their contraction takes the occurrences of a
/// label two at a time, where neither array carries a label twice.
pub proof fn lemma_reformatted_parity(orders: Seq<Seq<i32>>, i: int, j: int, label: i32)
    requires
        0 <= i < orders.len(),
        0 <= j < orders.len(),
        i != j,
        orders[i].no_duplicates(),
        orders[j].no_duplicates(),
    ensures
        total_occurrences(reformatted(orders, i, j), label) % 2 == total_occurrences(orders, label)
            % 2,
{
    let merged = merged_order(orders[i], orders[j]);
    let updated = orders.update(i, merged);
    lemma_merged_parity(orders[i], orders[j], label);
    lemma_total_update(orders, i, merged, label);
    lemma_total_remove(updated, j, label);
    assert(updated[j] == orders[j]);
}

/// The extra axes bring each new label twice, and no other label.
pub proof fn lemma_normalized_parity(orders: Seq<Seq<i32>>, label: i32)
    ensures
        total_occurrences(normalized_orders(orders), label) % 2 == total_occurrences(orders, label)
            % 2,
{
    let n = orders.len();
    let lifted = normalized_orders(orders);
    if n == 0 {
        assert(lifted =~= orders);
    } else {
        let ceiling = label_ceiling(orders);
        let extra = Seq::new((n - 1) as nat, |k: int| (ceiling + k + 1) as i32);
        lemma_normalized_upto(orders, label, (n - 1) as nat);
        assert(lifted[n - 1] == orders[n - 1] + extra);
        lemma_occurrences_concat(orders[n - 1], extra, label);
    }
}

proof fn lemma_normalized_upto(orders: Seq<Seq<i32>>, label: i32, m: nat)
    requires
        m + 1 <= orders.len(),
    ensures
        total_occurrences_upto(normalized_orders(orders), label, m) == total_occurrences_upto(
            orders,
            label,
            m,
        ) + occurrences_upto(
            Seq::new((orders.len() - 1) as nat, |k: int| (label_ceiling(orders) + k + 1) as i32),
            label,
            m,
        ),
    decreases m,
{
    if m > 0 {
        lemma_normalized_upto(orders, label, (m - 1) as nat);
        let ceiling = label_ceiling(orders);
        let extra = Seq::new((orders.len() - 1) as nat, |k: int| (ceiling + k + 1) as i32);
        let lifted = normalized_orders(orders);
        assert(lifted[m - 1] == orders[m - 1].push((ceiling + (m - 1) + 1) as i32));
        assert(extra[m - 1] == (ceiling + (m - 1) + 1) as i32);
        lemma_occurrences_push(orders[m - 1], extra[m - 1], label);
    }
}

/// Reordering the axes of an array keeps its labels.
pub proof fn lemma_pick_contains<T>(values: Seq<T>, order: Seq<usize>, value: T)
    requires
        order.len() == values.len(),
        values.len() <= usize::MAX,
        is_axis_order(order, values.len()),
    ensures
        pick(values, order).contains(value) <==> values.contains(value),
{
    let picked = pick(values, order);
    if values.contains(value) {
        let k = choose|k: int| 0 <= k < values.len() && values[k] == value;
        assert(order.contains(k as usize));
        let m = choose|m: int| 0 <= m < order.len() && order[m] == k as usize;
        assert(picked[m] == value);
    }
    if picked.contains(value) {
        let m = choose|m: int| 0 <= m < picked.len() && picked[m] == value;
        assert(values[order[m] as int] == value);
    }
}

/// In an order that carries no label twice, the labels that occur are the
/// labels that occur an odd number of times.
pub proof fn lemma_distinct_parity(order: Seq<i32>, label: i32)
    requires
        order.no_duplicates(),
    ensures
        order.contains(label) <==> occurrences(order, label) % 2 == 1,
{
    lemma_occurrences_distinct(order, label, order.len());
    lemma_occurrences_contains(order, label, order.len());
}

/// A label that occurs at all is the label of some axis.
pub proof fn lemma_total_positive(orders: Seq<Seq<i32>>, label: i32, n: nat)
    requires
        n <= orders.len(),
        total_occurrences_upto(orders, label, n) > 0,
    ensures
        exists|t: int, k: int|
            0 <= t < n && 0 <= k < orders[t].len() && #[trigger] orders[t][k] == label,
    decreases n,
{
    if n > 0 {
        let row = orders[n - 1];
        if occurrences(row, label) > 0 {
            lemma_occurrences_contains(row, label, row.len());
            let k = choose|k: int| 0 <= k < row.len() && row[k] == label;
            let t = n - 1;
            assert(0 <= t < n && 0 <= k < orders[t].len() && orders[t][k] == label);
        } else {
            lemma_total_positive(orders, label, (n - 1) as nat);
            let (t, k) = choose|t: int, k: int|
                0 <= t < n - 1 && 0 <= k < orders[t].len() && #[trigger] orders[t][k] == label;
            assert(0 <= t < n && 0 <= k < orders[t].len() && orders[t][k] == label);
        }
    }
}

} // verus!
