//! Contraction of a list of arrays along shared labels.

use vstd::prelude::*;
use crate::error::ContractionError;
use crate::labels::{
    aligned, axis_pairs, count_label, first_index, has_label, is_axis, keep_unshared, merged_order,
    occurrences, position, positions, rows, shared_labels_upto, singles_upto, total_occurrences,
    total_occurrences_upto, unshared,
};
use crate::origin::{axis_known, sizes_agree};
use crate::planner::{
    best_pair, numbers, ratio_matrix, row_sums, score_matrix, select_best_nodes, table,
};
use crate::shape::{copy_of, gather, is_axis_order, join, pick};
use crate::sizes::at_most_twice;
use crate::steps::{
    in_keeping, is_result_of, lemma_closing_succeeds, lemma_normalized_in_keeping, lemma_result,
    lemma_result_agrees,
};
use crate::tendot::{dot_shape, first_mismatch, left_half, right_half, tensor_dot};
use crate::trace::trace;

verus! {

/// One contraction of the plan, as it is carried out on the arrays.
pub struct MergeStep {
    /// The two arrays that are contracted, as positions in the list of
    /// arrays at the time: the result takes the place of the first, and the
    /// second leaves the list.
    pub pair: Vec<usize>,
    /// The traces to take of the first array before the contraction, in
    /// order; each is a pair of axes of the array at the time.
    pub left_traces: Vec<Vec<usize>>,
    /// The traces to take of the second array before the contraction.
    pub right_traces: Vec<Vec<usize>>,
    /// The axis pairs over which the two arrays are contracted, as a flat
    /// list: the axes of the first array, then the matching axes of the
    /// second.
    pub axes: Vec<usize>,
}

/// What a [`MergeStep`] holds.
pub struct StepView {
    pub pair: Seq<usize>,
    pub left_traces: Seq<Seq<usize>>,
    pub right_traces: Seq<Seq<usize>>,
    pub axes: Seq<usize>,
}

impl View for MergeStep {
    type V = StepView;

    open spec fn view(&self) -> StepView {
        StepView {
            pair: self.pair@,
            left_traces: rows(self.left_traces@),
            right_traces: rows(self.right_traces@),
            axes: self.axes@,
        }
    }
}

/// What a list of steps holds.
pub open spec fn steps_of(steps: Seq<MergeStep>) -> Seq<StepView> {
    Seq::new(steps.len(), |k: int| steps[k]@)
}

/// How to contract a list of arrays.
///
/// Each array is first read with its shape in `shapes`, which adds axes of
/// size one at its end. Then the steps are carried out in order on the list
/// of arrays, which loses one array at each step. The array that is left is
/// traced as `closing_traces` says, and its axes are reordered as `axes`
/// says.
pub struct Contraction {
    /// The shape that each array takes before the first step.
    pub shapes: Vec<Vec<usize>>,
    /// The contractions, in order.
    pub steps: Vec<MergeStep>,
    /// The traces to take of the array that is left after the last step.
    pub closing_traces: Vec<Vec<usize>>,
    /// The order in which the result takes the axes of the array that is left.
    pub axes: Vec<usize>,
    /// Shape of the result.
    pub shape: Vec<usize>,
    /// Labels of the axes of the result: what is left of the labels, largest first.
    pub labels: Vec<i32>,
}

// Labels are checked first.

/// A positive label stands for a contraction and occurs exactly twice; a
/// negative label stands for an axis of the result and occurs at most once.
pub open spec fn count_allowed(label: i32, count: nat) -> bool {
    &&& label > 0 ==> count == 2
    &&& label < 0 ==> count <= 1
}

/// The label at axis `k` of array `t` occurs as often as its sign allows.
pub open spec fn label_fits(orders: Seq<Seq<i32>>, t: int, k: int) -> bool {
    count_allowed(orders[t][k], total_occurrences(orders, orders[t][k]))
}

/// Every label occurs as often as its sign allows.
pub open spec fn labels_valid(orders: Seq<Seq<i32>>) -> bool {
    forall|t: int, k: int| is_axis(orders, t, k) ==> #[trigger] label_fits(orders, t, k)
}

/// Axis `k` of array `t` is read before axis `m` of array `u`.
pub open spec fn read_before(t: int, k: int, u: int, m: int) -> bool {
    t < u || (t == u && k < m)
}

/// Axis `k` of array `t` is the first, in reading order, whose label occurs
/// more or less often than its sign allows.
pub open spec fn is_first_misfit(orders: Seq<Seq<i32>>, t: int, k: int) -> bool {
    &&& is_axis(orders, t, k)
    &&& !label_fits(orders, t, k)
    &&& forall|u: int, m: int|
        is_axis(orders, u, m) && read_before(u, m, t, k) ==> #[trigger] label_fits(orders, u, m)
}

/// Counts the occurrences of a label in all label orders, up to three.
fn count_up_to_three(orders: &[Vec<i32>], label: i32) -> (count: usize)
    ensures
        count <= 3,
        count < 3 ==> count == total_occurrences(rows(orders@), label),
        count == 3 ==> total_occurrences(rows(orders@), label) >= 3,
{
    let mut count: usize = 0;
    let mut t: usize = 0;
    while t < orders.len()
        invariant
            t <= orders.len(),
            count <= 3,
            count < 3 ==> count == total_occurrences_upto(rows(orders@), label, t as nat),
            count == 3 ==> total_occurrences_upto(rows(orders@), label, t as nat) >= 3,
        decreases orders.len() - t,
    {
        let order = &orders[t];
        let mut k: usize = 0;
        let ghost seen = total_occurrences_upto(rows(orders@), label, t as nat);
        while k < order.len()
            invariant
                k <= order.len(),
                count <= 3,
                count < 3 ==> count == seen + crate::labels::occurrences_upto(
                    order@,
                    label,
                    k as nat,
                ),
                count == 3 ==> seen + crate::labels::occurrences_upto(order@, label, k as nat)
                    >= 3,
            decreases order.len() - k,
        {
            if order[k] == label && count < 3 {
                count = count + 1;
            }
            k = k + 1;
        }
        assert(rows(orders@)[t as int] == order@);
        t = t + 1;
    }
    count
}

/// Checks that every label occurs as often as its sign allows: a positive
/// label exactly twice, a negative label at most once, over all label orders
/// together. Names, if not, the first label in reading order that does not.
pub fn indices_validation(order: &[Vec<i32>]) -> (outcome: Result<(), ContractionError>)
    ensures
        outcome is Ok <==> labels_valid(rows(order@)),
        outcome matches Err(error) ==> exists|t: int, k: int|
            #[trigger] is_first_misfit(rows(order@), t, k) && error
                == (ContractionError::InvalidLabelCount { label: order[t]@[k] }),
{
    let ghost orders = rows(order@);
    let mut t: usize = 0;
    while t < order.len()
        invariant
            t <= order.len(),
            orders == rows(order@),
            forall|u: int, m: int|
                is_axis(orders, u, m) && u < t ==> #[trigger] label_fits(orders, u, m),
        decreases order.len() - t,
    {
        let labels = &order[t];
        let mut k: usize = 0;
        while k < labels.len()
            invariant
                k <= labels.len(),
                t < order.len(),
                labels@ == orders[t as int],
                orders == rows(order@),
                forall|u: int, m: int|
                    is_axis(orders, u, m) && read_before(u, m, t as int, k as int)
                        ==> #[trigger] label_fits(orders, u, m),
            decreases labels.len() - k,
        {
            let label: i32 = labels[k];
            let count: usize = count_up_to_three(order, label);
            let fits: bool = if label > 0 {
                count == 2
            } else if label < 0 {
                count <= 1
            } else {
                true
            };
            if !fits {
                assert(is_first_misfit(orders, t as int, k as int));
                return Err(ContractionError::InvalidLabelCount { label });
            }
            assert(label_fits(orders, t as int, k as int));
            k = k + 1;
        }
        t = t + 1;
    }
    Ok(())
}

// Every array gets an axis that it shares with the last.

/// `ceiling` is the largest label of all, or zero where there is no label.
pub open spec fn is_label_ceiling(orders: Seq<Seq<i32>>, ceiling: int) -> bool {
    &&& forall|t: int, k: int| is_axis(orders, t, k) ==> (#[trigger] orders[t][k]) <= ceiling
    &&& (ceiling == 0 && forall|t: int| 0 <= t < orders.len() ==> (#[trigger] orders[t]).len() == 0)
        || exists|t: int, k: int| is_axis(orders, t, k) && #[trigger] orders[t][k] == ceiling
}

/// The largest label of all, or zero where there is no label.
pub open spec fn label_ceiling(orders: Seq<Seq<i32>>) -> int {
    choose|ceiling: int| is_label_ceiling(orders, ceiling)
}

/// There is one label ceiling only.
pub proof fn lemma_label_ceiling(orders: Seq<Seq<i32>>, ceiling: int)
    requires
        is_label_ceiling(orders, ceiling),
    ensures
        label_ceiling(orders) == ceiling,
{
    let other = label_ceiling(orders);
    assert(is_label_ceiling(orders, other));
    if exists|t: int, k: int| is_axis(orders, t, k) && #[trigger] orders[t][k] == ceiling {
        let (t, k) = choose|t: int, k: int|
            is_axis(orders, t, k) && #[trigger] orders[t][k] == ceiling;
        assert(orders[t][k] <= other);
        assert(orders[t].len() != 0);
        let (u, m) = choose|u: int, m: int|
            is_axis(orders, u, m) && #[trigger] orders[u][m] == other;
        assert(orders[u][m] <= ceiling);
    } else {
        if exists|u: int, m: int| is_axis(orders, u, m) && #[trigger] orders[u][m] == other {
            let (u, m) = choose|u: int, m: int|
                is_axis(orders, u, m) && #[trigger] orders[u][m] == other;
            assert(orders[u].len() == 0);
        }
    }
}

/// Finds the largest label of all; zero where there is no label.
pub fn largest_label(orders: &[Vec<i32>]) -> (ceiling: i32)
    ensures
        ceiling == label_ceiling(rows(orders@)),
{
    let ghost all = rows(orders@);
    let mut found: bool = false;
    let mut ceiling: i32 = 0;
    let mut t: usize = 0;
    while t < orders.len()
        invariant
            t <= orders.len(),
            all == rows(orders@),
            !found ==> ceiling == 0,
            !found ==> forall|u: int| 0 <= u < t ==> (#[trigger] all[u]).len() == 0,
            found ==> exists|u: int, m: int| is_axis(all, u, m) && #[trigger] all[u][m] == ceiling,
            forall|u: int, m: int|
                is_axis(all, u, m) && u < t ==> (#[trigger] all[u][m]) <= ceiling,
        decreases orders.len() - t,
    {
        let labels = &orders[t];
        let mut k: usize = 0;
        while k < labels.len()
            invariant
                k <= labels.len(),
                t < orders.len(),
                all == rows(orders@),
                labels@ == all[t as int],
                !found ==> ceiling == 0,
                !found ==> k == 0,
                !found ==> forall|u: int| 0 <= u < t ==> (#[trigger] all[u]).len() == 0,
                found ==> exists|u: int, m: int|
                    is_axis(all, u, m) && #[trigger] all[u][m] == ceiling,
                forall|u: int, m: int|
                    is_axis(all, u, m) && read_before(u, m, t as int, k as int) ==> (
                    #[trigger] all[u][m]) <= ceiling,
            decreases labels.len() - k,
        {
            if !found || labels[k] > ceiling {
                ceiling = labels[k];
                found = true;
                assert(is_axis(all, t as int, k as int) && all[t as int][k as int] == ceiling);
            }
            k = k + 1;
        }
        t = t + 1;
    }
    proof {
        assert(is_label_ceiling(all, ceiling as int));
        lemma_label_ceiling(all, ceiling as int);
    }
    ceiling
}

/// The label orders after every array was given its extra axes: each array
/// but the last gets one new label, larger than every label in use, and the
/// last array gets all of these labels, in the order of the arrays.
pub open spec fn normalized_orders(orders: Seq<Seq<i32>>) -> Seq<Seq<i32>> {
    let ceiling = label_ceiling(orders);
    Seq::new(
        orders.len(),
        |t: int|
            if t < orders.len() - 1 {
                orders[t].push((ceiling + t + 1) as i32)
            } else {
                orders[t] + Seq::new(
                    (orders.len() - 1) as nat,
                    |k: int| (ceiling + k + 1) as i32,
                )
            },
    )
}

/// The shapes after every array was given its extra axes, each of size one:
/// one for each array but the last, and for the last array one for each of
/// the others.
pub open spec fn normalized_shapes(shapes: Seq<Seq<usize>>) -> Seq<Seq<usize>> {
    Seq::new(
        shapes.len(),
        |t: int|
            if t < shapes.len() - 1 {
                shapes[t].push(1usize)
            } else {
                shapes[t] + Seq::new((shapes.len() - 1) as nat, |k: int| 1usize)
            },
    )
}

/// The new labels fit the label type.
pub open spec fn labels_have_room(orders: Seq<Seq<i32>>) -> bool {
    orders.len() >= 2 ==> label_ceiling(orders) + orders.len() - 1 <= i32::MAX
}

/// Whether the new labels fit the label type: what
/// [`prepare_contraction_data`] asks of its caller.
pub fn has_room_for_labels(orders: &[Vec<i32>]) -> (ok: bool)
    ensures
        ok == labels_have_room(rows(orders@)),
{
    let n: usize = orders.len();
    if n < 2 {
        return true;
    }
    let ceiling: i32 = largest_label(orders);
    let room: i64 = 0x7fff_ffffi64 - ceiling as i64;
    n - 1 <= room as usize
}

/// Whether there is one label order for each shape, with one label for each
/// axis.
pub fn is_aligned(shapes: &[Vec<usize>], orders: &[Vec<i32>]) -> (ok: bool)
    ensures
        ok == aligned(rows(shapes@), rows(orders@)),
{
    if shapes.len() != orders.len() {
        return false;
    }
    let mut t: usize = 0;
    while t < shapes.len()
        invariant
            t <= shapes.len(),
            shapes@.len() == orders@.len(),
            forall|u: int|
                0 <= u < t ==> (#[trigger] rows(shapes@)[u]).len() == rows(orders@)[u].len(),
        decreases shapes.len() - t,
    {
        if shapes[t].len() != orders[t].len() {
            assert(rows(shapes@)[t as int].len() != rows(orders@)[t as int].len());
            return false;
        }
        t = t + 1;
    }
    true
}

/// Gives every array but the last one more axis of size one with a label of
/// its own, and the last array an axis of size one for each of these labels,
/// so that every array shares an axis with the last. The new labels count up
/// from the largest label in use.
pub fn prepare_contraction_data(shapes: &mut Vec<Vec<usize>>, orders: &mut Vec<Vec<i32>>)
    requires
        old(shapes)@.len() == old(orders)@.len(),
        labels_have_room(rows(old(orders)@)),
    ensures
        rows(final(orders)@) == normalized_orders(rows(old(orders)@)),
        rows(final(shapes)@) == normalized_shapes(rows(old(shapes)@)),
{
    let n: usize = orders.len();
    if n == 0 {
        assert(rows(orders@) =~= normalized_orders(rows(orders@)));
        assert(rows(shapes@) =~= normalized_shapes(rows(shapes@)));
        return ;
    }
    let ceiling: i32 = largest_label(orders.as_slice());
    let ghost old_orders = rows(orders@);
    let ghost old_shapes = rows(shapes@);
    let mut new_orders: Vec<Vec<i32>> = Vec::new();
    let mut new_shapes: Vec<Vec<usize>> = Vec::new();
    let mut new_labels: Vec<i32> = Vec::new();
    let mut new_sizes: Vec<usize> = Vec::new();
    let mut t: usize = 0;
    while t < n - 1
        invariant
            t <= n - 1,
            n == orders@.len(),
            n == shapes@.len(),
            old_orders == rows(orders@),
            old_shapes == rows(shapes@),
            ceiling == label_ceiling(old_orders),
            labels_have_room(old_orders),
            new_orders@.len() == t,
            new_shapes@.len() == t,
            new_labels@.len() == t,
            new_sizes@.len() == t,
            forall|u: int|
                0 <= u < t ==> (#[trigger] new_orders[u])@ == normalized_orders(old_orders)[u],
            forall|u: int|
                0 <= u < t ==> (#[trigger] new_shapes[u])@ == normalized_shapes(old_shapes)[u],
            forall|u: int| 0 <= u < t ==> new_labels[u] == (ceiling + u + 1) as i32,
            forall|u: int| 0 <= u < t ==> new_sizes[u] == 1,
        decreases n - 1 - t,
    {
        let label: i32 = (ceiling as i64 + t as i64 + 1) as i32;
        let mut one_label: Vec<i32> = Vec::new();
        one_label.push(label);
        let mut one_size: Vec<usize> = Vec::new();
        one_size.push(1);
        let order = join(&orders[t], &one_label);
        let shape = join(&shapes[t], &one_size);
        assert(order@ =~= old_orders[t as int].push(label));
        assert(shape@ =~= old_shapes[t as int].push(1usize));
        new_orders.push(order);
        new_shapes.push(shape);
        new_labels.push(label);
        new_sizes.push(1);
        t = t + 1;
    }
    let order = join(&orders[n - 1], &new_labels);
    let shape = join(&shapes[n - 1], &new_sizes);
    assert(new_labels@ =~= Seq::new((n - 1) as nat, |k: int| (ceiling + k + 1) as i32));
    assert(new_sizes@ =~= Seq::new((n - 1) as nat, |k: int| 1usize));
    new_orders.push(order);
    new_shapes.push(shape);
    assert(rows(new_orders@) =~= normalized_orders(old_orders));
    assert(rows(new_shapes@) =~= normalized_shapes(old_shapes));
    *orders = new_orders;
    *shapes = new_shapes;
}

/// Shapes and label orders stay in step when the arrays get their extra axes.
pub proof fn lemma_normalized_aligned(shapes: Seq<Seq<usize>>, orders: Seq<Seq<i32>>)
    requires
        aligned(shapes, orders),
    ensures
        aligned(normalized_shapes(shapes), normalized_orders(orders)),
{
    let new_shapes = normalized_shapes(shapes);
    let new_orders = normalized_orders(orders);
    assert forall|t: int| 0 <= t < new_shapes.len() implies (#[trigger] new_shapes[t]).len()
        == new_orders[t].len() by {
        assert(shapes[t].len() == orders[t].len());
    }
}

// The plan is made on shapes and label orders alone.

/// What a list of shapes or of label orders becomes when the arrays at `i`
/// and `j` are replaced by their contraction: the entry at `i` gives way to
/// what the two arrays do not share, the first array's part in front, and the
/// entry at `j` leaves the list.
pub open spec fn spliced<T>(lists: Seq<Seq<T>>, orders: Seq<Seq<i32>>, i: int, j: int) -> Seq<
    Seq<T>,
> {
    lists.update(
        i,
        unshared(lists[i], orders[i], orders[j]) + unshared(lists[j], orders[j], orders[i]),
    ).remove(j)
}

/// Updates the shapes of a list of arrays for the contraction of the two
/// arrays that `indices` names: the first one's place takes the sizes of the
/// axes that the two do not share, the first array's in front, and the second
/// leaves the list.
pub fn shape_reformat(shapes: &mut Vec<Vec<usize>>, orders: &[Vec<i32>], indices: &[usize])
    requires
        indices@.len() == 2,
        indices[0] < old(shapes)@.len(),
        indices[1] < old(shapes)@.len(),
        aligned(rows(old(shapes)@), rows(orders@)),
    ensures
        rows(final(shapes)@) == spliced(
            rows(old(shapes)@),
            rows(orders@),
            indices[0] as int,
            indices[1] as int,
        ),
{
    let i: usize = indices[0];
    let j: usize = indices[1];
    let ghost before = shapes@;
    assert(rows(before)[i as int].len() == rows(orders@)[i as int].len());
    assert(rows(before)[j as int].len() == rows(orders@)[j as int].len());
    let left = keep_unshared(&shapes[i], &orders[i], &orders[j]);
    let right = keep_unshared(&shapes[j], &orders[j], &orders[i]);
    let merged = join(&left, &right);
    shapes.set(i, merged);
    shapes.remove(j);
    assert(rows(shapes@) =~= spliced(rows(before), rows(orders@), i as int, j as int));
}

/// Updates the label orders of a list of arrays in step with
/// [`shape_reformat`]: the first named array's place takes the labels that
/// the two arrays do not share, and the second leaves the list.
pub fn order_splice(orders: &mut Vec<Vec<i32>>, indices: &[usize])
    requires
        indices@.len() == 2,
        indices[0] < old(orders)@.len(),
        indices[1] < old(orders)@.len(),
    ensures
        rows(final(orders)@) == spliced(
            rows(old(orders)@),
            rows(old(orders)@),
            indices[0] as int,
            indices[1] as int,
        ),
{
    let i: usize = indices[0];
    let j: usize = indices[1];
    let ghost before = orders@;
    let left = keep_unshared(&orders[i], &orders[i], &orders[j]);
    let right = keep_unshared(&orders[j], &orders[j], &orders[i]);
    let merged = join(&left, &right);
    orders.set(i, merged);
    orders.remove(j);
    assert(rows(orders@) =~= spliced(rows(before), rows(before), i as int, j as int));
}

/// Shapes and label orders stay in step when two arrays are replaced by
/// their contraction.
pub proof fn lemma_spliced_aligned(shapes: Seq<Seq<usize>>, orders: Seq<Seq<i32>>, i: int, j: int)
    requires
        aligned(shapes, orders),
        0 <= i < shapes.len(),
        0 <= j < shapes.len(),
    ensures
        aligned(spliced(shapes, orders, i, j), spliced(orders, orders, i, j)),
        spliced(shapes, orders, i, j).len() == shapes.len() - 1,
{
    crate::labels::lemma_unshared_len(shapes[i], orders[i], orders[i], orders[j], orders[i].len());
    crate::labels::lemma_unshared_len(shapes[j], orders[j], orders[j], orders[i], orders[j].len());
    let new_shapes = spliced(shapes, orders, i, j);
    let new_orders = spliced(orders, orders, i, j);
    assert forall|t: int| 0 <= t < new_shapes.len() implies (#[trigger] new_shapes[t]).len()
        == new_orders[t].len() by {
        let u = if t < j {
            t
        } else {
            t + 1
        };
        assert(shapes[u].len() == orders[u].len());
    }
}

/// The pair that the greedy rule contracts next.
pub open spec fn next_pair(shapes: Seq<Seq<usize>>, orders: Seq<Seq<i32>>) -> (int, int) {
    best_pair(score_matrix(shapes, orders), row_sums(score_matrix(shapes, orders)))
}

/// The next `steps` pairs of the greedy contraction order: at each step the
/// best pair of the arrays as they stand, after which the two are replaced
/// by their contraction.
pub open spec fn greedy_steps(shapes: Seq<Seq<usize>>, orders: Seq<Seq<i32>>, steps: nat) -> Seq<
    Seq<usize>,
>
    decreases steps,
{
    if steps == 0 {
        Seq::empty()
    } else {
        let (i, j) = next_pair(shapes, orders);
        seq![seq![i as usize, j as usize]] + greedy_steps(
            spliced(shapes, orders, i, j),
            spliced(orders, orders, i, j),
            (steps - 1) as nat,
        )
    }
}

/// The greedy contraction order of a list of arrays: one pair for each
/// contraction, until one array is left.
pub open spec fn greedy_plan(shapes: Seq<Seq<usize>>, orders: Seq<Seq<i32>>) -> Seq<Seq<usize>> {
    greedy_steps(
        shapes,
        orders,
        if orders.len() >= 1 {
            (orders.len() - 1) as nat
        } else {
            0
        },
    )
}

/// A plan reduces `count` arrays to one: it has a step for each array but
/// one, and each step names two different arrays of the list as it stands
/// after the steps before it.
pub open spec fn is_full_reduction(plan: Seq<Seq<usize>>, count: nat) -> bool {
    &&& plan.len() + 1 == count || (plan.len() == 0 && count == 0)
    &&& forall|s: int|
        0 <= s < plan.len() ==> {
            &&& (#[trigger] plan[s]).len() == 2
            &&& plan[s][0] < count - s
            &&& plan[s][1] < count - s
            &&& plan[s][0] != plan[s][1]
        }
}

/// Plans the contraction of a list of arrays that share their axes as they
/// stand: at each step the pair is selected that scores best, and the two
/// arrays are replaced by their contraction, until one array is left.
pub fn plan_contraction(shapes: Vec<Vec<usize>>, orders: Vec<Vec<i32>>) -> (plan: Vec<Vec<usize>>)
    requires
        aligned(rows(shapes@), rows(orders@)),
    ensures
        rows(plan@) == greedy_plan(rows(shapes@), rows(orders@)),
        is_full_reduction(rows(plan@), orders@.len()),
{
    let mut shapes = shapes;
    let mut orders = orders;
    let ghost first_shapes = rows(shapes@);
    let ghost first_orders = rows(orders@);
    let count: usize = orders.len();
    let mut plan: Vec<Vec<usize>> = Vec::new();
    assert(rows(plan@) + greedy_plan(first_shapes, first_orders) =~= greedy_plan(
        first_shapes,
        first_orders,
    ));
    while orders.len() > 1
        invariant
            aligned(rows(shapes@), rows(orders@)),
            count == first_orders.len(),
            count >= 1 ==> orders@.len() >= 1,
            plan@.len() + orders@.len() == count,
            rows(plan@) + greedy_plan(rows(shapes@), rows(orders@)) == greedy_plan(
                first_shapes,
                first_orders,
            ),
            forall|s: int|
                0 <= s < plan@.len() ==> {
                    &&& (#[trigger] rows(plan@)[s]).len() == 2
                    &&& rows(plan@)[s][0] < count - s
                    &&& rows(plan@)[s][1] < count - s
                    &&& rows(plan@)[s][0] != rows(plan@)[s][1]
                },
        decreases orders@.len(),
    {
        let ghost shapes_before = rows(shapes@);
        let ghost orders_before = rows(orders@);
        let ghost plan_before = rows(plan@);
        let (ratios, sums) = ratio_matrix(&shapes, &orders);
        assert(table(ratios@) == score_matrix(shapes_before, orders_before));
        assert forall|r: int| 0 <= r < ratios@.len() implies (#[trigger] ratios[r])@.len()
            == ratios@.len() by {
            assert(table(ratios@)[r].len() == shapes_before.len());
            assert(numbers(ratios[r]@).len() == ratios[r]@.len());
        }
        assert(table(ratios@).len() == ratios@.len());
        assert(numbers(sums@).len() == sums@.len());
        let nodes = select_best_nodes(&ratios, &sums);
        proof {
            lemma_spliced_aligned(shapes_before, orders_before, nodes[0] as int, nodes[1] as int);
        }
        shape_reformat(&mut shapes, orders.as_slice(), nodes.as_slice());
        order_splice(&mut orders, nodes.as_slice());
        plan.push(nodes);
        proof {
            let (i, j) = next_pair(shapes_before, orders_before);
            assert(nodes@ =~= seq![i as usize, j as usize]);
            assert(rows(plan@) =~= plan_before + seq![nodes@]);
            let rest = greedy_plan(rows(shapes@), rows(orders@));
            assert(greedy_plan(shapes_before, orders_before) == seq![nodes@] + rest);
            assert(plan_before + (seq![nodes@] + rest) =~= rows(plan@) + rest);
        }
    }
    proof {
        assert(rows(plan@) + Seq::<Seq<usize>>::empty() =~= rows(plan@));
    }
    plan
}

/// A copy of a list of lists.
pub fn copy_lists<T: Copy>(lists: &[Vec<T>]) -> (copy: Vec<Vec<T>>)
    ensures
        rows(copy@) == rows(lists@),
{
    let mut copy: Vec<Vec<T>> = Vec::new();
    let mut t: usize = 0;
    while t < lists.len()
        invariant
            t <= lists.len(),
            copy@.len() == t,
            forall|u: int| 0 <= u < t ==> (#[trigger] copy[u])@ == lists[u]@,
        decreases lists.len() - t,
    {
        let nothing: Vec<T> = Vec::new();
        let list = join(&lists[t], &nothing);
        assert(list@ =~= lists[t as int]@);
        copy.push(list);
        t = t + 1;
    }
    assert(rows(copy@) =~= rows(lists@));
    copy
}

/// The plan for a list of arrays as they are given: the greedy plan for the
/// arrays with their extra axes.
pub open spec fn planned(shapes: Seq<Seq<usize>>, orders: Seq<Seq<i32>>) -> Seq<Seq<usize>> {
    greedy_plan(normalized_shapes(shapes), normalized_orders(orders))
}

/// Plans the contraction of a list of arrays with the given shapes and label
/// orders: the arrays are first given the extra axes that make every array
/// share an axis with the last, and then pairs are selected greedily until
/// one array is left. Each pair names two arrays of the list as it stands
/// when its turn comes: the contraction takes the place of the first, and
/// the second leaves the list.
pub fn contract_map(shapes: &[Vec<usize>], orders: &[Vec<i32>]) -> (plan: Vec<Vec<usize>>)
    requires
        aligned(rows(shapes@), rows(orders@)),
        labels_have_room(rows(orders@)),
    ensures
        rows(plan@) == planned(rows(shapes@), rows(orders@)),
        is_full_reduction(rows(plan@), orders@.len()),
{
    let mut lifted_shapes = copy_lists(shapes);
    let mut lifted_orders = copy_lists(orders);
    prepare_contraction_data(&mut lifted_shapes, &mut lifted_orders);
    proof {
        lemma_normalized_aligned(rows(shapes@), rows(orders@));
    }
    plan_contraction(lifted_shapes, lifted_orders)
}

// Before an array is contracted, labels that it carries twice are traced away.

/// Position of the first among the first `n` axes whose label occurs more
/// than once in the order; `n` if there is none.
pub open spec fn first_repeated_upto(order: Seq<i32>, n: nat) -> nat
    decreases n,
{
    if n == 0 {
        0
    } else {
        let before = first_repeated_upto(order, (n - 1) as nat);
        if before < n - 1 {
            before
        } else if occurrences(order, order[n - 1]) >= 2 {
            (n - 1) as nat
        } else {
            n
        }
    }
}

/// Position of the first axis whose label occurs more than once in the
/// order; the length of the order if there is none.
pub open spec fn first_repeated(order: Seq<i32>) -> nat {
    first_repeated_upto(order, order.len())
}

/// Position of the next axis after `p` that carries the label of axis `p`;
/// the length of the order if there is none.
pub open spec fn partner(order: Seq<i32>, p: int) -> int {
    p + 1 + first_index(order.skip(p + 1), order[p])
}

/// An array after its traces: the pairs of axes that were traced, each as
/// axes of the array at the time, and the shape and label order left.
pub struct Traced {
    pub traces: Seq<Seq<usize>>,
    pub shape: Seq<usize>,
    pub order: Seq<i32>,
}

/// An outcome with more traces in front of its own.
pub open spec fn after_traces(done: Seq<Seq<usize>>, outcome: Result<Traced, ContractionError>)
    -> Result<Traced, ContractionError> {
    match outcome {
        Ok(rest) => Ok(Traced { traces: done + rest.traces, shape: rest.shape, order: rest.order }),
        Err(error) => Err(error),
    }
}

/// Traces an array until no label is left on two of its axes: as long as
/// there is such a label, the first axis that carries one is traced with the
/// next axis of the same label, and both axes leave the array. Two such axes
/// of different sizes end it with an error.
pub open spec fn traced(shape: Seq<usize>, order: Seq<i32>) -> Result<Traced, ContractionError>
    decreases order.len(),
{
    let p = first_repeated(order) as int;
    let q = partner(order, p);
    if 0 <= p < q < order.len() {
        if shape[p] != shape[q] {
            Err(
                ContractionError::ShapeMismatch {
                    traced: true,
                    left_axis: p as usize,
                    left_size: shape[p],
                    right_axis: q as usize,
                    right_size: shape[q],
                },
            )
        } else {
            after_traces(
                seq![seq![p as usize, q as usize]],
                traced(shape.remove(q).remove(p), order.remove(q).remove(p)),
            )
        }
    } else {
        Ok(Traced { traces: Seq::empty(), shape, order })
    }
}

/// Axes of one array with the same label have the same size.
pub open spec fn sizes_match(shape: Seq<usize>, order: Seq<i32>) -> bool {
    forall|k: int, m: int|
        0 <= k < order.len() && 0 <= m < order.len() && #[trigger] order[k] == #[trigger] order[m]
            ==> shape[k] == shape[m]
}

/// Once a repeated label was found, looking at more axes does not change
/// which one was first.
proof fn lemma_first_repeated_stays(order: Seq<i32>, m: nat, n: nat)
    requires
        m <= n,
        first_repeated_upto(order, m) < m,
    ensures
        first_repeated_upto(order, n) == first_repeated_upto(order, m),
    decreases n,
{
    if m < n {
        lemma_first_repeated_stays(order, m, (n - 1) as nat);
    }
}

/// Finds the next pair of axes to trace, if there is one.
fn next_trace(order: &Vec<i32>) -> (pair: Option<(usize, usize)>)
    ensures
        match pair {
            Some((p, q)) => p == first_repeated(order@) && q == partner(order@, p as int) && p < q
                < order@.len(),
            None => !(first_repeated(order@) < partner(order@, first_repeated(order@) as int)
                < order@.len()),
        },
{
    let n: usize = order.len();
    let mut p: usize = 0;
    let mut found: bool = false;
    while p < n && !found
        invariant
            p <= n,
            n == order@.len(),
            first_repeated_upto(order@, p as nat) == p,
            found ==> p < n && occurrences(order@, order[p as int]) >= 2,
        decreases 2 * (n - p) + (if found { 0int } else { 1int }),
    {
        if count_label(order, order[p]) >= 2 {
            found = true;
        } else {
            p = p + 1;
        }
    }
    if !found {
        return None;
    }
    proof {
        lemma_first_repeated_stays(order@, (p + 1) as nat, n as nat);
    }
    let label: i32 = order[p];
    let ghost rest = order@.skip(p + 1);
    let mut q: usize = p + 1;
    while q < n
        invariant
            p < q <= n,
            n == order@.len(),
            p == first_repeated(order@),
            label == order[p as int],
            rest == order@.skip(p + 1),
            forall|m: int| p < m < q ==> order[m] != label,
        decreases n - q,
    {
        if order[q] == label {
            proof {
                assert forall|m: int| 0 <= m < q - p - 1 implies rest[m] != label by {
                    assert(rest[m] == order[p + 1 + m]);
                }
                crate::labels::lemma_first_index_is(rest, label, q - p - 1);
            }
            return Some((p, q));
        }
        q = q + 1;
    }
    proof {
        crate::labels::lemma_first_index(rest, label);
        if rest.contains(label) {
            let m = choose|m: int| 0 <= m < rest.len() && rest[m] == label;
            assert(order[p + 1 + m] == label);
        }
    }
    None
}

/// Traces away every label that an array carries on two of its axes, and
/// returns the pairs of axes that were traced, in the order of the traces;
/// each pair names axes of the array as it stands when its turn comes. The
/// shape and the label order lose the traced axes. Where two axes of one
/// label differ in size nothing is changed.
pub fn trace_check(shape: &mut Vec<usize>, order: &mut Vec<i32>) -> (outcome: Result<
    Vec<Vec<usize>>,
    ContractionError,
>)
    requires
        old(shape)@.len() == old(order)@.len(),
    ensures
        match traced(old(shape)@, old(order)@) {
            Ok(done) => {
                &&& outcome matches Ok(traces)
                &&& rows(traces@) == done.traces
                &&& final(shape)@ == done.shape
                &&& final(order)@ == done.order
            },
            Err(error) => {
                &&& outcome == Err::<Vec<Vec<usize>>, ContractionError>(error)
                &&& final(shape)@ == old(shape)@
                &&& final(order)@ == old(order)@
            },
        },
        outcome matches Err(error) ==> error is ShapeMismatch,
        sizes_match(old(shape)@, old(order)@) ==> outcome is Ok,
        outcome is Ok ==> {
            &&& final(shape)@.len() == final(order)@.len()
            &&& final(order)@.no_duplicates()
            &&& forall|label: i32|
                final(order)@.contains(label) <==> (#[trigger] occurrences(old(order)@, label)) % 2
                    == 1
        },
{
    proof {
        let given_shape = shape@;
        let given_order = order@;
        lemma_traced(given_shape, given_order);
        crate::steps::lemma_traced_error(given_shape, given_order);
        if traced(given_shape, given_order) is Ok {
            let done = traced(given_shape, given_order).unwrap();
            assert forall|label: i32|
                done.order.contains(label) <==> (#[trigger] occurrences(given_order, label)) % 2
                    == 1 by {
                crate::counting::lemma_traced_parity(given_shape, given_order, label);
                crate::counting::lemma_distinct_parity(done.order, label);
            }
        }
        if sizes_match(given_shape, given_order) {
            let shapes = seq![given_shape];
            let orders = seq![given_order];
            assert(shapes[0] == given_shape && orders[0] == given_order);
            assert forall|k: int| 0 <= k < given_order.len() implies axis_known(
                shapes,
                orders,
                #[trigger] given_order[k],
                given_shape[k],
            ) by {
                assert(is_axis(orders, 0, k) && orders[0][k] == given_order[k] && shapes[0][k]
                    == given_shape[k]);
            }
            crate::origin::lemma_traced_succeeds(shapes, orders, given_shape, given_order);
        }
    }
    let nothing: Vec<usize> = Vec::new();
    let no_label: Vec<i32> = Vec::new();
    let mut left_shape = join(shape, &nothing);
    let mut left_order = join(order, &no_label);
    assert(left_shape@ =~= shape@);
    assert(left_order@ =~= order@);
    let mut traces: Vec<Vec<usize>> = Vec::new();
    let mut next = next_trace(&left_order);
    proof {
        let whole = traced(shape@, order@);
        match whole {
            Ok(done) => {
                assert(rows(traces@) + done.traces =~= done.traces);
            },
            Err(_) => {},
        }
    }
    while next.is_some()
        invariant
            left_shape@.len() == left_order@.len(),
            shape@ == old(shape)@,
            order@ == old(order)@,
            sizes_match(old(shape)@, old(order)@) ==> traced(old(shape)@, old(order)@) is Ok,
            traced(old(shape)@, old(order)@) matches Err(error) ==> error is ShapeMismatch,
            traced(old(shape)@, old(order)@) == after_traces(
                rows(traces@),
                traced(left_shape@, left_order@),
            ),
            match next {
                Some((p, q)) => p == first_repeated(left_order@) && q == partner(
                    left_order@,
                    p as int,
                ) && p < q < left_order@.len(),
                None => !(first_repeated(left_order@) < partner(
                    left_order@,
                    first_repeated(left_order@) as int,
                ) < left_order@.len()),
            },
        decreases left_order@.len(),
    {
        let (p, q) = next.unwrap();
        let mut pair: Vec<usize> = Vec::new();
        pair.push(p);
        pair.push(q);
        let mut axes: Vec<usize> = Vec::new();
        axes.push(p);
        axes.push(q);
        assert(pair@ =~= seq![p, q]);
        assert(axes@ =~= seq![p, q]);
        let rank: usize = left_shape.len();
        let ghost shape_before = left_shape@;
        let ghost order_before = left_order@;
        assert(shape_before.len() == rank);
        let ghost traces_before = rows(traces@);
        match trace(&left_shape, axes) {
            Err(error) => {
                return Err(error);
            },
            Ok(plan) => {
                proof {
                    crate::shape::lemma_pick_without_pair(shape_before, p as int, q as int);
                }
                left_shape = plan.shape;
                left_order.remove(q);
                left_order.remove(p);
                traces.push(pair);
            },
        }
        proof {
            let rest = traced(left_shape@, left_order@);
            assert(traced(shape_before, order_before) == after_traces(seq![seq![p, q]], rest));
            assert(rows(traces@) =~= traces_before + seq![seq![p, q]]);
            match rest {
                Ok(done) => {
                    assert(traces_before + (seq![seq![p, q]] + done.traces) =~= rows(traces@)
                        + done.traces);
                },
                Err(_) => {},
            }
        }
        next = next_trace(&left_order);
    }
    proof {
        assert(rows(traces@) + Seq::<Seq<usize>>::empty() =~= rows(traces@));
    }
    *shape = left_shape;
    *order = left_order;
    Ok(traces)
}

/// What the first repeated axis is.
pub proof fn lemma_first_repeated_upto(order: Seq<i32>, n: nat)
    requires
        n <= order.len(),
    ensures
        first_repeated_upto(order, n) <= n,
        first_repeated_upto(order, n) < n ==> occurrences(
            order,
            order[first_repeated_upto(order, n) as int],
        ) >= 2,
        forall|k: int|
            0 <= k < first_repeated_upto(order, n) ==> occurrences(order, #[trigger] order[k]) < 2,
    decreases n,
{
    if n > 0 {
        lemma_first_repeated_upto(order, (n - 1) as nat);
    }
}

/// An order with no repeated axis carries no label twice, and the other way
/// round.
pub proof fn lemma_no_repeats(order: Seq<i32>)
    ensures
        first_repeated(order) >= order.len() <==> order.no_duplicates(),
{
    lemma_first_repeated_upto(order, order.len());
    if first_repeated(order) >= order.len() {
        assert forall|a: int, b: int|
            0 <= a < order.len() && 0 <= b < order.len() && a != b implies order[a]
            != order[b] by {
            if order[a] == order[b] {
                if a < b {
                    crate::labels::lemma_two_occurrences(order, a, b);
                } else {
                    crate::labels::lemma_two_occurrences(order, b, a);
                }
                assert(occurrences(order, order[a]) < 2);
            }
        }
    } else {
        let p = first_repeated(order) as int;
        if order.no_duplicates() {
            crate::labels::lemma_occurrences_distinct(order, order[p], order.len());
        }
    }
}

/// The first repeated axis has a partner: a later axis with the same label.
pub proof fn lemma_partner(order: Seq<i32>)
    requires
        first_repeated(order) < order.len(),
    ensures
        first_repeated(order) < partner(order, first_repeated(order) as int) < order.len(),
        order[partner(order, first_repeated(order) as int)] == order[first_repeated(order) as int],
{
    let p = first_repeated(order) as int;
    let label = order[p];
    let rest = order.skip(p + 1);
    lemma_first_repeated_upto(order, order.len());
    assert forall|k: int| 0 <= k < p implies order[k] != label by {
        assert(occurrences(order, order[k]) < 2);
    }
    crate::labels::lemma_occurrences_none(order, label, 0, p as nat);
    assert(crate::labels::occurrences_upto(order, label, (p + 1) as nat) == 1);
    if forall|m: int| p < m < order.len() ==> order[m] != label {
        crate::labels::lemma_occurrences_none(order, label, (p + 1) as nat, order.len());
        assert(false);
    }
    let m = choose|m: int| p < m < order.len() && order[m] == label;
    assert(rest[m - p - 1] == label);
    crate::labels::lemma_first_index(rest, label);
    let at = first_index(rest, label) as int;
    assert(rest[at] == order[p + 1 + at]);
}

/// Tracing leaves shape and label order in step, and no label on two axes.
pub proof fn lemma_traced(shape: Seq<usize>, order: Seq<i32>)
    requires
        shape.len() == order.len(),
    ensures
        traced(shape, order) matches Ok(done) ==> {
            &&& done.shape.len() == done.order.len()
            &&& done.order.len() <= order.len()
            &&& done.order.no_duplicates()
        },
    decreases order.len(),
{
    let p = first_repeated(order) as int;
    let q = partner(order, p);
    lemma_first_repeated_upto(order, order.len());
    if p < order.len() {
        lemma_partner(order);
        if shape[p] == shape[q] {
            lemma_traced(shape.remove(q).remove(p), order.remove(q).remove(p));
        }
    } else {
        lemma_no_repeats(order);
    }
}

/// An array that carries no label twice is left as it is.
pub proof fn lemma_traced_distinct(shape: Seq<usize>, order: Seq<i32>)
    requires
        order.no_duplicates(),
    ensures
        traced(shape, order) == Ok::<Traced, ContractionError>(
            Traced { traces: Seq::empty(), shape, order },
        ),
{
    lemma_no_repeats(order);
}

// A step of the plan contracts two arrays over the labels that they share.

/// Finds the axes over which the two arrays that `indexes` names are
/// contracted: for each label that both carry, in the order in which the
/// first array carries them, the first array's axis with that label, and
/// then, in the same order, the second array's.
pub fn order_to_index(order_list: &[Vec<i32>], indexes: &[usize]) -> (axes: Vec<usize>)
    requires
        indexes@.len() == 2,
        indexes[0] < order_list@.len(),
        indexes[1] < order_list@.len(),
    ensures
        axes@ == axis_pairs(order_list[indexes[0] as int]@, order_list[indexes[1] as int]@),
{
    let a = &order_list[indexes[0]];
    let b = &order_list[indexes[1]];
    let mut common: Vec<i32> = Vec::new();
    let mut k: usize = 0;
    while k < a.len()
        invariant
            k <= a.len(),
            common@ == shared_labels_upto(a@, b@, k as nat),
        decreases a.len() - k,
    {
        let label: i32 = a[k];
        if has_label(b, label) && position(a, label) == k {
            common.push(label);
        }
        k = k + 1;
    }
    let mut left: Vec<usize> = Vec::new();
    let mut right: Vec<usize> = Vec::new();
    let mut k: usize = 0;
    while k < common.len()
        invariant
            k <= common.len(),
            left@.len() == k,
            right@.len() == k,
            forall|m: int| 0 <= m < k ==> left[m] == first_index(a@, common[m]),
            forall|m: int| 0 <= m < k ==> right[m] == first_index(b@, common[m]),
        decreases common.len() - k,
    {
        left.push(position(a, common[k]));
        right.push(position(b, common[k]));
        k = k + 1;
    }
    assert(left@ =~= positions(a@, common@));
    assert(right@ =~= positions(b@, common@));
    join(&left, &right)
}

/// What a list of label orders becomes when the orders at `i` and `j` are
/// merged into the entry at `i` and the entry at `j` leaves the list.
pub open spec fn reformatted(orders: Seq<Seq<i32>>, i: int, j: int) -> Seq<Seq<i32>> {
    orders.update(i, merged_order(orders[i], orders[j])).remove(j)
}

/// Merges the label orders of the two arrays that `indices` names into the
/// place of the first and takes the second out of the list. The merged order
/// holds the labels of the first array followed by those of the second,
/// without every label that occurs more than once among them.
pub fn order_reformat(orders: &mut Vec<Vec<i32>>, indices: &[usize])
    requires
        indices@.len() == 2,
        indices[0] < old(orders)@.len(),
        indices[1] < old(orders)@.len(),
    ensures
        rows(final(orders)@) == reformatted(
            rows(old(orders)@),
            indices[0] as int,
            indices[1] as int,
        ),
{
    let i: usize = indices[0];
    let j: usize = indices[1];
    let combined = join(&orders[i], &orders[j]);
    let mut merged: Vec<i32> = Vec::new();
    let mut k: usize = 0;
    while k < combined.len()
        invariant
            k <= combined.len(),
            merged@ == singles_upto(combined@, k as nat),
        decreases combined.len() - k,
    {
        if count_label(&combined, combined[k]) == 1 {
            merged.push(combined[k]);
        }
        k = k + 1;
    }
    let ghost before = orders@;
    orders.set(i, merged);
    orders.remove(j);
    assert(rows(orders@) =~= reformatted(rows(before), i as int, j as int));
}

/// The arrays after one contraction of the plan, with the step that was
/// carried out.
pub struct Merged {
    pub step: StepView,
    pub shapes: Seq<Seq<usize>>,
    pub orders: Seq<Seq<i32>>,
}

/// Carries out one contraction of the plan on a list of arrays: the first
/// array of the pair is traced until it carries no label twice, then the
/// second; the two are contracted over the labels that they share; the
/// result takes the place of the first, and the second leaves the list.
pub open spec fn merged_pair(shapes: Seq<Seq<usize>>, orders: Seq<Seq<i32>>, pair: Seq<usize>)
    -> Result<Merged, ContractionError> {
    let i = pair[0] as int;
    let j = pair[1] as int;
    match traced(shapes[i], orders[i]) {
        Err(error) => Err(error),
        Ok(left) => {
            let shapes = shapes.update(i, left.shape);
            let orders = orders.update(i, left.order);
            match traced(shapes[j], orders[j]) {
                Err(error) => Err(error),
                Ok(right) => {
                    let shapes = shapes.update(j, right.shape);
                    let orders = orders.update(j, right.order);
                    let axes = axis_pairs(orders[i], orders[j]);
                    let left_axes = left_half(axes);
                    let right_axes = right_half(axes);
                    let k = first_mismatch(
                        shapes[i],
                        shapes[j],
                        left_axes,
                        right_axes,
                        left_axes.len(),
                    ) as int;
                    if k < left_axes.len() {
                        Err(
                            ContractionError::ShapeMismatch {
                                traced: false,
                                left_axis: left_axes[k],
                                left_size: shapes[i][left_axes[k] as int],
                                right_axis: right_axes[k],
                                right_size: shapes[j][right_axes[k] as int],
                            },
                        )
                    } else {
                        Ok(
                            Merged {
                                step: StepView {
                                    pair,
                                    left_traces: left.traces,
                                    right_traces: right.traces,
                                    axes,
                                },
                                shapes: shapes.update(i, dot_shape(shapes[i], shapes[j], axes)).remove(
                                    j,
                                ),
                                orders: reformatted(orders, i, j),
                            },
                        )
                    }
                },
            }
        },
    }
}

/// Carries out one step of a plan on the shapes and label orders of a list
/// of arrays.
fn merge_pair(
    shapes: &mut Vec<Vec<usize>>,
    orders: &mut Vec<Vec<i32>>,
    pair: &Vec<usize>,
    Ghost(given_shapes): Ghost<Seq<Seq<usize>>>,
    Ghost(given_orders): Ghost<Seq<Seq<i32>>>,
) -> (outcome: Result<MergeStep, ContractionError>)
    requires
        in_keeping(given_shapes, given_orders, rows(old(shapes)@), rows(old(orders)@)),
        pair@.len() == 2,
        pair[0] < old(shapes)@.len(),
        pair[1] < old(shapes)@.len(),
        pair[0] != pair[1],
    ensures
        match merged_pair(rows(old(shapes)@), rows(old(orders)@), pair@) {
            Ok(merged) => {
                &&& outcome matches Ok(step)
                &&& step@ == merged.step
                &&& rows(final(shapes)@) == merged.shapes
                &&& rows(final(orders)@) == merged.orders
                &&& in_keeping(given_shapes, given_orders, merged.shapes, merged.orders)
                &&& merged.shapes.len() + 1 == old(shapes)@.len()
            },
            Err(error) => {
                &&& outcome == Err::<MergeStep, ContractionError>(error)
                &&& error is ShapeMismatch
                &&& !sizes_agree(given_shapes, given_orders)
            },
        },
{
    let i: usize = pair[0];
    let j: usize = pair[1];
    let left_rank: usize = orders[i].len();
    let right_rank: usize = orders[j].len();
    let ghost shapes0 = rows(shapes@);
    let ghost orders0 = rows(orders@);
    proof {
        assert(shapes0[i as int].len() == orders0[i as int].len());
        assert(shapes0[j as int].len() == orders0[j as int].len());
        assert(orders0[i as int].len() == left_rank);
        assert(orders0[j as int].len() == right_rank);
        crate::steps::lemma_merged_pair(shapes0, orders0, pair@, given_shapes, given_orders);
    }

    let mut left_shape = copy_of(&shapes[i]);
    let mut left_order = copy_of(&orders[i]);
    proof {
        lemma_traced(left_shape@, left_order@);
    }
    let left_traces = match trace_check(&mut left_shape, &mut left_order) {
        Ok(traces) => traces,
        Err(error) => {
            return Err(error);
        },
    };
    shapes.set(i, left_shape);
    orders.set(i, left_order);
    let ghost shapes1 = rows(shapes@);
    let ghost orders1 = rows(orders@);
    assert(shapes1 =~= shapes0.update(i as int, shapes1[i as int]));
    assert(orders1 =~= orders0.update(i as int, orders1[i as int]));

    let mut right_shape = copy_of(&shapes[j]);
    let mut right_order = copy_of(&orders[j]);
    proof {
        lemma_traced(right_shape@, right_order@);
    }
    let right_traces = match trace_check(&mut right_shape, &mut right_order) {
        Ok(traces) => traces,
        Err(error) => {
            return Err(error);
        },
    };
    shapes.set(j, right_shape);
    orders.set(j, right_order);
    let ghost shapes2 = rows(shapes@);
    let ghost orders2 = rows(orders@);
    assert(shapes2 =~= shapes1.update(j as int, shapes2[j as int]));
    assert(orders2 =~= orders1.update(j as int, orders2[j as int]));

    let axes = order_to_index(orders.as_slice(), pair.as_slice());
    proof {
        crate::pairing::lemma_axis_pairs(orders2[i as int], orders2[j as int]);
    }
    let plan = match tensor_dot(&shapes[i], &shapes[j], copy_of(&axes)) {
        Ok(plan) => plan,
        Err(error) => {
            return Err(error);
        },
    };
    shapes.set(i, plan.shape);
    shapes.remove(j);
    order_reformat(orders, pair.as_slice());
    proof {
        let merged = merged_pair(shapes0, orders0, pair@).unwrap();
        assert(rows(shapes@) =~= merged.shapes);
        assert(rows(orders@) =~= merged.orders);
    }
    Ok(MergeStep { pair: copy_of(pair), left_traces, right_traces, axes })
}

/// The arrays after the steps of a plan, with the steps as carried out.
pub struct Run {
    pub steps: Seq<StepView>,
    pub shapes: Seq<Seq<usize>>,
    pub orders: Seq<Seq<i32>>,
}

/// An outcome with more steps in front of its own.
pub open spec fn after_steps(done: Seq<StepView>, outcome: Result<Run, ContractionError>) -> Result<
    Run,
    ContractionError,
> {
    match outcome {
        Ok(rest) => Ok(Run { steps: done + rest.steps, shapes: rest.shapes, orders: rest.orders }),
        Err(error) => Err(error),
    }
}

/// Carries out the steps of a plan from step `from` on, one after the other,
/// up to the first that fails.
pub open spec fn carried_out(
    shapes: Seq<Seq<usize>>,
    orders: Seq<Seq<i32>>,
    plan: Seq<Seq<usize>>,
    from: nat,
) -> Result<Run, ContractionError>
    decreases plan.len() - from,
{
    if from >= plan.len() {
        Ok(Run { steps: Seq::empty(), shapes, orders })
    } else {
        match merged_pair(shapes, orders, plan[from as int]) {
            Err(error) => Err(error),
            Ok(merged) => after_steps(
                seq![merged.step],
                carried_out(merged.shapes, merged.orders, plan, from + 1),
            ),
        }
    }
}

// The axes of the result come in the order of their labels.

/// Axis `x` comes before axis `y` when the axes are put in the order of
/// their labels, largest first; of two axes with the same label the earlier
/// one comes first.
pub open spec fn precedes(order: Seq<i32>, x: int, y: int) -> bool {
    order[x] > order[y] || (order[x] == order[y] && x < y)
}

/// `axes` lists the axes of an array with label order `order` by their
/// labels, largest first.
pub open spec fn is_descending(order: Seq<i32>, axes: Seq<usize>) -> bool {
    &&& axes.len() == order.len()
    &&& is_axis_order(axes, order.len())
    &&& forall|k: int, m: int|
        0 <= k < m < axes.len() ==> precedes(order, #[trigger] axes[k] as int, #[trigger] axes[m] as int)
}

/// Puts the axes of an array in the order of their labels, largest first.
pub fn final_order(order: &Vec<i32>) -> (axes: Vec<usize>)
    ensures
        is_descending(order@, axes@),
{
    let n: usize = order.len();
    let mut axes: Vec<usize> = Vec::new();
    let mut next: usize = 0;
    while next < n
        invariant
            next <= n,
            n == order@.len(),
            axes@.len() == next,
            is_axis_order(axes@, next as nat),
            forall|k: int, m: int|
                0 <= k < m < axes@.len() ==> precedes(
                    order@,
                    #[trigger] axes[k] as int,
                    #[trigger] axes[m] as int,
                ),
        decreases n - next,
    {
        let label: i32 = order[next];
        let mut at: usize = 0;
        while at < next && order[axes[at]] >= label
            invariant
                at <= next,
                next < n,
                n == order@.len(),
                axes@.len() == next,
                label == order[next as int],
                is_axis_order(axes@, next as nat),
                forall|k: int| 0 <= k < at ==> order[(#[trigger] axes[k]) as int] >= label,
            decreases next - at,
        {
            at = at + 1;
        }
        let ghost before = axes@;
        axes.insert(at, next);
        proof {
            let after = axes@;
            assert(after == before.insert(at as int, next));
            assert forall|k: int| 0 <= k < after.len() implies (#[trigger] after[k]) < next + 1 by {
                if k < at {
                    assert(after[k] == before[k]);
                } else if k > at {
                    assert(after[k] == before[k - 1]);
                }
            }
            assert forall|k: int, m: int| 0 <= k < after.len() && 0 <= m < after.len() && k != m
                implies after[k] != after[m] by {
                let kb = if k < at { k } else { k - 1 };
                let mb = if m < at { m } else { m - 1 };
                if k != at && m != at {
                    assert(after[k] == before[kb] && after[m] == before[mb]);
                } else if k == at {
                    assert(after[m] == before[mb]);
                } else {
                    assert(after[k] == before[kb]);
                }
            }
            assert forall|axis: usize| axis < next + 1 implies after.contains(axis) by {
                if axis == next {
                    assert(after[at as int] == axis);
                } else {
                    assert(before.contains(axis));
                    let k = choose|k: int| 0 <= k < before.len() && before[k] == axis;
                    if k < at {
                        assert(after[k] == axis);
                    } else {
                        assert(after[k + 1] == axis);
                    }
                }
            }
            assert forall|k: int, m: int| 0 <= k < m < after.len() implies precedes(
                order@,
                #[trigger] after[k] as int,
                #[trigger] after[m] as int,
            ) by {
                let kb = if k < at { k } else { k - 1 };
                let mb = if m < at { m } else { m - 1 };
                if k != at && m != at {
                    assert(after[k] == before[kb] && after[m] == before[mb]);
                    assert(precedes(order@, before[kb] as int, before[mb] as int));
                } else if k == at {
                    assert(after[m] == before[mb]);
                    assert(precedes(order@, before[at as int] as int, before[mb] as int) || mb == at);
                } else {
                    assert(after[k] == before[kb]);
                }
            }
        }
        next = next + 1;
    }
    axes
}

// The whole contraction.

/// A contraction before its axes are put in their final order: the shapes
/// that the arrays take first, the steps, the traces of the array that is
/// left, and its shape and label order after them.
pub struct Settled {
    pub shapes: Seq<Seq<usize>>,
    pub steps: Seq<StepView>,
    pub closing_traces: Seq<Seq<usize>>,
    pub shape: Seq<usize>,
    pub order: Seq<i32>,
}

/// Contracts a list of arrays whose labels were found valid: the arrays get
/// their extra axes, the greedy plan is made and carried out, and the array
/// that is left is traced until it carries no label twice.
pub open spec fn settled(shapes: Seq<Seq<usize>>, orders: Seq<Seq<i32>>) -> Result<
    Settled,
    ContractionError,
> {
    let lifted_shapes = normalized_shapes(shapes);
    let lifted_orders = normalized_orders(orders);
    match carried_out(lifted_shapes, lifted_orders, greedy_plan(lifted_shapes, lifted_orders), 0) {
        Err(error) => Err(error),
        Ok(run) => match traced(run.shapes[0], run.orders[0]) {
            Err(error) => Err(error),
            Ok(last) => Ok(
                Settled {
                    shapes: lifted_shapes,
                    steps: run.steps,
                    closing_traces: last.traces,
                    shape: last.shape,
                    order: last.order,
                },
            ),
        },
    }
}

/// Whether a list of arrays can be contracted: there is at least one array,
/// one label order for each shape with one label for each axis, and room for
/// the new labels. This is what [`contract`] asks of its caller.
pub fn can_contract(shapes: &[Vec<usize>], orders: &[Vec<i32>]) -> (ok: bool)
    ensures
        ok == (orders@.len() >= 1 && aligned(rows(shapes@), rows(orders@)) && labels_have_room(
            rows(orders@),
        )),
{
    orders.len() >= 1 && is_aligned(shapes, orders) && has_room_for_labels(orders)
}

/// Plans the contraction of a list of arrays with the given shapes and label
/// orders, down to the shape and the labels of the result.
///
/// The labels are checked first: a positive label must occur exactly twice
/// and a negative label at most once, or the first label that does not is
/// reported. Then the arrays get their extra axes, the greedy plan is made
/// and carried out step by step: before two arrays are contracted over the
/// labels that they share, each is traced until it carries no label twice.
/// Axes matched by a trace or a contraction that differ in size end the
/// contraction with an error. The array that is left is traced likewise, and
/// its axes are put in the order of their labels, largest first.
pub fn contract(shapes: Vec<Vec<usize>>, orders: Vec<Vec<i32>>) -> (outcome: Result<
    Contraction,
    ContractionError,
>)
    requires
        aligned(rows(shapes@), rows(orders@)),
        orders@.len() >= 1,
        labels_have_room(rows(orders@)),
    ensures
        !labels_valid(rows(orders@)) ==> (outcome matches Err(error) && exists|t: int, k: int|
            #[trigger] is_first_misfit(rows(orders@), t, k) && error
                == (ContractionError::InvalidLabelCount { label: rows(orders@)[t][k] })),
        labels_valid(rows(orders@)) ==> match settled(rows(shapes@), rows(orders@)) {
            Err(error) => outcome == Err::<Contraction, ContractionError>(error),
            Ok(settled) => {
                &&& outcome matches Ok(contraction)
                &&& rows(contraction.shapes@) == settled.shapes
                &&& steps_of(contraction.steps@) == settled.steps
                &&& rows(contraction.closing_traces@) == settled.closing_traces
                &&& is_descending(settled.order, contraction.axes@)
                &&& contraction.shape@ == pick(settled.shape, contraction.axes@)
                &&& contraction.labels@ == pick(settled.order, contraction.axes@)
            },
        },
        labels_valid(rows(orders@)) ==> (outcome matches Err(error) ==> error is ShapeMismatch),
        labels_valid(rows(orders@)) && sizes_agree(rows(shapes@), rows(orders@)) ==> outcome is Ok,
        outcome is Ok && at_most_twice(rows(orders@)) ==> sizes_agree(rows(shapes@), rows(orders@)),
        outcome matches Ok(contraction) ==> {
            &&& contraction.steps@.len() + 1 == orders@.len()
            &&& is_result_of(
                rows(shapes@),
                rows(orders@),
                contraction.shape@,
                contraction.labels@,
            )
        },
{
    match indices_validation(orders.as_slice()) {
        Ok(()) => {},
        Err(error) => {
            return Err(error);
        },
    }
    let ghost given_shapes = rows(shapes@);
    let ghost given_orders = rows(orders@);
    let count: usize = orders.len();
    let mut live_shapes = copy_lists(shapes.as_slice());
    let mut live_orders = copy_lists(orders.as_slice());
    prepare_contraction_data(&mut live_shapes, &mut live_orders);
    proof {
        lemma_normalized_in_keeping(given_shapes, given_orders);
    }
    let ghost lifted_shapes = rows(live_shapes@);
    let ghost lifted_orders = rows(live_orders@);
    let lifted = copy_lists(live_shapes.as_slice());
    let plan = plan_contraction(
        copy_lists(live_shapes.as_slice()),
        copy_lists(live_orders.as_slice()),
    );
    let ghost whole_plan = rows(plan@);
    let mut steps: Vec<MergeStep> = Vec::new();
    let mut k: usize = 0;
    proof {
        let whole = carried_out(lifted_shapes, lifted_orders, whole_plan, 0);
        match whole {
            Ok(run) => {
                assert(steps_of(steps@) + run.steps =~= run.steps);
            },
            Err(_) => {},
        }
    }
    while k < plan.len()
        invariant
            k <= plan@.len(),
            count >= 1,
            count == orders@.len(),
            given_shapes == rows(shapes@),
            given_orders == rows(orders@),
            labels_valid(given_orders),
            lifted_shapes == normalized_shapes(given_shapes),
            lifted_orders == normalized_orders(given_orders),
            whole_plan == greedy_plan(lifted_shapes, lifted_orders),
            whole_plan == rows(plan@),
            is_full_reduction(whole_plan, count as nat),
            steps@.len() == k,
            live_shapes@.len() + k == count,
            in_keeping(given_shapes, given_orders, rows(live_shapes@), rows(live_orders@)),
            carried_out(lifted_shapes, lifted_orders, whole_plan, 0) == after_steps(
                steps_of(steps@),
                carried_out(rows(live_shapes@), rows(live_orders@), whole_plan, k as nat),
            ),
        decreases plan@.len() - k,
    {
        let ghost steps_before = steps_of(steps@);
        assert(whole_plan[k as int] == plan[k as int]@);
        let step = match merge_pair(
            &mut live_shapes,
            &mut live_orders,
            &plan[k],
            Ghost(given_shapes),
            Ghost(given_orders),
        ) {
            Ok(step) => step,
            Err(error) => {
                return Err(error);
            },
        };
        steps.push(step);
        proof {
            let rest = carried_out(
                rows(live_shapes@),
                rows(live_orders@),
                whole_plan,
                (k + 1) as nat,
            );
            assert(steps_of(steps@) =~= steps_before + seq![step@]);
            match rest {
                Ok(run) => {
                    assert(steps_before + (seq![step@] + run.steps) =~= steps_of(steps@) + run.steps);
                },
                Err(_) => {},
            }
        }
        k = k + 1;
    }
    let mut shape = copy_of(&live_shapes[0]);
    let mut order = copy_of(&live_orders[0]);
    let ghost last_shape = shape@;
    let ghost last_order = order@;
    proof {
        assert(steps_of(steps@) + Seq::<StepView>::empty() =~= steps_of(steps@));
        assert(rows(live_shapes@) =~= seq![last_shape]);
        assert(rows(live_orders@) =~= seq![last_order]);
        assert(rows(live_shapes@)[0].len() == rows(live_orders@)[0].len());
        lemma_closing_succeeds(given_shapes, given_orders, last_shape, last_order);
    }
    let closing_traces = match trace_check(&mut shape, &mut order) {
        Ok(traces) => traces,
        Err(error) => {
            return Err(error);
        },
    };
    let axes = final_order(&order);
    let final_shape = gather(&shape, &axes);
    let labels = gather(&order, &axes);
    proof {
        lemma_result(given_shapes, given_orders, last_shape, last_order, axes@);
        if at_most_twice(given_orders) {
            lemma_result_agrees(given_shapes, given_orders, final_shape@, labels@);
        }
    }
    Ok(Contraction { shapes: lifted, steps, closing_traces, axes, shape: final_shape, labels })
}

} // verus!
