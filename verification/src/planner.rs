//! Scoring of candidate pairs for the greedy contraction order.
//!
//! A pair of arrays is scored by the sizes of the axes they share, divided by
//! the product of their two element counts. Scores are only ever compared and
//! added up within one step, so they are kept multiplied by the product of
//! the element counts of all arrays of that step. This makes every score a
//! natural number: the shared size times the element counts of the *other*
//! arrays.

use vstd::prelude::*;
use crate::labels::{aligned, first_index, has_label, position, rows};
use crate::natural::Natural;
use crate::shape::{volume, volume_upto};

verus! {

/// Sum of the sizes of those among the first `n` axes of an array whose label
/// also labels an axis of the other array. A label that the array carries on
/// several axes counts once, with the size of the first of them.
pub open spec fn shared_extent_upto(
    shape: Seq<usize>,
    order: Seq<i32>,
    other: Seq<i32>,
    n: nat,
) -> nat
    decreases n,
{
    if n == 0 {
        0
    } else {
        let before = shared_extent_upto(shape, order, other, (n - 1) as nat);
        if other.contains(order[n - 1]) && first_index(order, order[n - 1]) == n - 1 {
            before + shape[n - 1] as nat
        } else {
            before
        }
    }
}

/// Sum of the sizes of the axes that an array shares with another.
pub open spec fn shared_extent(shape: Seq<usize>, order: Seq<i32>, other: Seq<i32>) -> nat {
    shared_extent_upto(shape, order, other, order.len())
}

/// Product of the element counts of the first `n` arrays, leaving out the
/// arrays at `i` and `j`.
pub open spec fn others_volume_upto(shapes: Seq<Seq<usize>>, i: int, j: int, n: nat) -> nat
    decreases n,
{
    if n == 0 {
        1
    } else if n - 1 == i || n - 1 == j {
        others_volume_upto(shapes, i, j, (n - 1) as nat)
    } else {
        others_volume_upto(shapes, i, j, (n - 1) as nat) * volume(shapes[n - 1])
    }
}

/// Score of contracting the arrays at `i` and `j` next: the size that they
/// share, seen from the one that comes first in the list, times the element
/// counts of all other arrays. An array scores zero with itself.
pub open spec fn score(shapes: Seq<Seq<usize>>, orders: Seq<Seq<i32>>, i: int, j: int) -> nat {
    if i == j {
        0
    } else {
        let first = if i < j {
            i
        } else {
            j
        };
        let second = if i < j {
            j
        } else {
            i
        };
        shared_extent(shapes[first], orders[first], orders[second]) * others_volume_upto(
            shapes,
            first,
            second,
            shapes.len(),
        )
    }
}

/// The scores of all pairs: a symmetric matrix with a zero diagonal.
pub open spec fn score_matrix(shapes: Seq<Seq<usize>>, orders: Seq<Seq<i32>>) -> Seq<Seq<nat>> {
    Seq::new(shapes.len(), |i: int| Seq::new(shapes.len(), |j: int| score(shapes, orders, i, j)))
}

/// The largest of the first `n` values; zero if there is none.
pub open spec fn largest_upto(values: Seq<nat>, n: nat) -> nat
    decreases n,
{
    if n == 0 {
        0
    } else if values[n - 1] > largest_upto(values, (n - 1) as nat) {
        values[n - 1]
    } else {
        largest_upto(values, (n - 1) as nat)
    }
}

/// The largest value of a row.
pub open spec fn largest(values: Seq<nat>) -> nat {
    largest_upto(values, values.len())
}

/// The largest value of each row of a matrix.
pub open spec fn row_peaks(matrix: Seq<Seq<nat>>) -> Seq<nat> {
    Seq::new(matrix.len(), |i: int| largest(matrix[i]))
}

/// The largest value of a matrix.
pub open spec fn matrix_largest(matrix: Seq<Seq<nat>>) -> nat {
    largest(row_peaks(matrix))
}

/// The sum of the first `n` values.
pub open spec fn total_upto(values: Seq<nat>, n: nat) -> nat
    decreases n,
{
    if n == 0 {
        0
    } else {
        total_upto(values, (n - 1) as nat) + values[n - 1]
    }
}

/// The sum of a row.
pub open spec fn total(values: Seq<nat>) -> nat {
    total_upto(values, values.len())
}

/// For each row of a matrix its sum, if the row holds the largest value of
/// the matrix, and zero otherwise.
pub open spec fn row_sums(matrix: Seq<Seq<nat>>) -> Seq<nat> {
    Seq::new(
        matrix.len(),
        |i: int|
            if largest(matrix[i]) == matrix_largest(matrix) {
                total(matrix[i])
            } else {
                0
            },
    )
}

/// Among the first `n` positions other than `skip`, the first one that holds
/// the largest value found there; `-1` if there is no such position.
pub open spec fn first_best_upto(values: Seq<nat>, skip: int, n: nat) -> int
    decreases n,
{
    if n == 0 {
        -1
    } else {
        let before = first_best_upto(values, skip, (n - 1) as nat);
        if n - 1 == skip {
            before
        } else if before < 0 || values[n - 1] > values[before] {
            n - 1
        } else {
            before
        }
    }
}

/// The first position other than `skip` that holds the largest value found
/// at such positions.
pub open spec fn first_best(values: Seq<nat>, skip: int) -> int {
    first_best_upto(values, skip, values.len())
}

/// The pair that a matrix of scores with its row sums selects: the first row
/// with the largest row sum, and in that row the first other position with
/// the largest score.
pub open spec fn best_pair(matrix: Seq<Seq<nat>>, sums: Seq<nat>) -> (int, int) {
    let i = first_best(sums, -1);
    (i, first_best(matrix[i], i))
}

/// What the first best position is: it is a position other than `skip`, no
/// other such position holds more, and none before it holds as much.
pub proof fn lemma_first_best_upto(values: Seq<nat>, skip: int, n: nat)
    requires
        n <= values.len(),
    ensures
        ({
            let best = first_best_upto(values, skip, n);
            &&& -1 <= best < n
            &&& best != skip || best == -1
            &&& best == -1 <==> (n == 0 || (n == 1 && skip == 0))
            &&& best >= 0 ==> forall|k: int| 0 <= k < n && k != skip ==> values[k] <= values[best]
            &&& best >= 0 ==> forall|k: int| 0 <= k < best && k != skip ==> values[k] < values[best]
        }),
    decreases n,
{
    if n > 0 {
        lemma_first_best_upto(values, skip, (n - 1) as nat);
    }
}

/// The numbers that a list of naturals holds.
pub open spec fn numbers(list: Seq<Natural>) -> Seq<nat> {
    Seq::new(list.len(), |k: int| list[k]@)
}

/// The numbers that a matrix of naturals holds.
pub open spec fn table(matrix: Seq<Vec<Natural>>) -> Seq<Seq<nat>> {
    Seq::new(matrix.len(), |i: int| numbers(matrix[i]@))
}

/// Computes the score of one pair.
fn score_of(shapes: &Vec<Vec<usize>>, orders: &Vec<Vec<i32>>, i: usize, j: usize) -> (result:
    Natural)
    requires
        aligned(rows(shapes@), rows(orders@)),
        i < shapes.len(),
        j < shapes.len(),
    ensures
        result@ == score(rows(shapes@), rows(orders@), i as int, j as int),
{
    if i == j {
        return Natural::zero();
    }
    let first: usize = if i < j {
        i
    } else {
        j
    };
    let second: usize = if i < j {
        j
    } else {
        i
    };
    let ghost all_shapes = rows(shapes@);
    let ghost all_orders = rows(orders@);
    assert(all_shapes[first as int].len() == all_orders[first as int].len());
    let shape = &shapes[first];
    let order = &orders[first];
    let other = &orders[second];
    let mut result = Natural::zero();
    let mut k: usize = 0;
    while k < order.len()
        invariant
            k <= order.len(),
            shape.len() == order.len(),
            result@ == shared_extent_upto(shape@, order@, other@, k as nat),
        decreases order.len() - k,
    {
        let label: i32 = order[k];
        if has_label(other, label) && position(order, label) == k {
            result = result.plus(&Natural::from_usize(shape[k]));
        }
        k = k + 1;
    }
    let ghost shared = result@;
    let mut t: usize = 0;
    assert(shared * 1 == shared);
    while t < shapes.len()
        invariant
            t <= shapes.len(),
            all_shapes == rows(shapes@),
            result@ == shared * others_volume_upto(all_shapes, first as int, second as int, t as nat),
        decreases shapes.len() - t,
    {
        if t != first && t != second {
            let dims = &shapes[t];
            let ghost so_far = others_volume_upto(all_shapes, first as int, second as int, t as nat);
            let mut k: usize = 0;
            assert(shared * so_far * 1 == shared * so_far);
            while k < dims.len()
                invariant
                    k <= dims.len(),
                    result@ == shared * so_far * volume_upto(dims@, k as nat),
                decreases dims.len() - k,
            {
                let ghost part = volume_upto(dims@, k as nat);
                let ghost size = dims[k as int] as nat;
                result = result.times(dims[k]);
                assert(shared * so_far * part * size == shared * so_far * (part * size))
                    by (nonlinear_arith);
                k = k + 1;
            }
            assert(shared * so_far * volume(dims@) == shared * (so_far * volume(dims@)))
                by (nonlinear_arith);
            assert(all_shapes[t as int] == dims@);
        }
        t = t + 1;
    }
    result
}

/// Scores every pair of arrays and sums up the rows that hold the best score.
///
/// Returns the matrix of scores and, for each row, its sum if the row holds
/// the largest score of the matrix, and zero otherwise.
pub fn ratio_matrix(shapes: &Vec<Vec<usize>>, orders: &Vec<Vec<i32>>) -> (scored: (
    Vec<Vec<Natural>>,
    Vec<Natural>,
))
    requires
        aligned(rows(shapes@), rows(orders@)),
    ensures
        table(scored.0@) == score_matrix(rows(shapes@), rows(orders@)),
        numbers(scored.1@) == row_sums(score_matrix(rows(shapes@), rows(orders@))),
{
    let n: usize = shapes.len();
    let ghost scores = score_matrix(rows(shapes@), rows(orders@));
    let mut matrix: Vec<Vec<Natural>> = Vec::new();
    let mut peaks: Vec<Natural> = Vec::new();
    let mut totals: Vec<Natural> = Vec::new();
    let mut i: usize = 0;
    while i < n
        invariant
            i <= n,
            n == shapes.len(),
            aligned(rows(shapes@), rows(orders@)),
            scores == score_matrix(rows(shapes@), rows(orders@)),
            matrix@.len() == i,
            peaks@.len() == i,
            totals@.len() == i,
            forall|r: int| 0 <= r < i ==> numbers(#[trigger] matrix[r]@) == scores[r],
            forall|r: int| 0 <= r < i ==> (#[trigger] peaks[r])@ == largest(scores[r]),
            forall|r: int| 0 <= r < i ==> (#[trigger] totals[r])@ == total(scores[r]),
        decreases n - i,
    {
        let mut row: Vec<Natural> = Vec::new();
        let mut peak = Natural::zero();
        let mut sum = Natural::zero();
        let mut j: usize = 0;
        while j < n
            invariant
                j <= n,
                i < n,
                n == shapes.len(),
                aligned(rows(shapes@), rows(orders@)),
                scores == score_matrix(rows(shapes@), rows(orders@)),
                row@.len() == j,
                forall|c: int| 0 <= c < j ==> (#[trigger] row[c])@ == scores[i as int][c],
                peak@ == largest_upto(scores[i as int], j as nat),
                sum@ == total_upto(scores[i as int], j as nat),
            decreases n - j,
        {
            let entry = score_of(shapes, orders, i, j);
            if entry.exceeds(&peak) {
                peak = entry.duplicate();
            }
            sum = sum.plus(&entry);
            row.push(entry);
            j = j + 1;
        }
        assert(numbers(row@) =~= scores[i as int]);
        matrix.push(row);
        peaks.push(peak);
        totals.push(sum);
        i = i + 1;
    }
    assert(table(matrix@) =~= scores);
    assert(numbers(peaks@) =~= row_peaks(scores));
    let mut top = Natural::zero();
    let mut i: usize = 0;
    while i < n
        invariant
            i <= n,
            peaks@.len() == n,
            top@ == largest_upto(numbers(peaks@), i as nat),
        decreases n - i,
    {
        if peaks[i].exceeds(&top) {
            top = peaks[i].duplicate();
        }
        i = i + 1;
    }
    let mut sums: Vec<Natural> = Vec::new();
    let mut i: usize = 0;
    while i < n
        invariant
            i <= n,
            peaks@.len() == n,
            totals@.len() == n,
            scores.len() == n,
            sums@.len() == i,
            top@ == matrix_largest(scores),
            forall|r: int| 0 <= r < n ==> (#[trigger] peaks[r])@ == largest(scores[r]),
            forall|r: int| 0 <= r < n ==> (#[trigger] totals[r])@ == total(scores[r]),
            forall|r: int| 0 <= r < i ==> (#[trigger] sums[r])@ == row_sums(scores)[r],
        decreases n - i,
    {
        if peaks[i].equals(&top) {
            sums.push(totals[i].duplicate());
        } else {
            sums.push(Natural::zero());
        }
        i = i + 1;
    }
    assert(numbers(sums@) =~= row_sums(scores));
    (matrix, sums)
}

/// Finds the first position other than `skip` that holds the largest value
/// found at such positions.
fn first_best_index(values: &Vec<Natural>, skip: usize) -> (best: Option<usize>)
    ensures
        match best {
            Some(at) => at == first_best(numbers(values@), skip as int),
            None => first_best(numbers(values@), skip as int) == -1,
        },
{
    let mut best: Option<usize> = None;
    let mut k: usize = 0;
    while k < values.len()
        invariant
            k <= values.len(),
            match best {
                Some(at) => at < k && at == first_best_upto(numbers(values@), skip as int, k as nat),
                None => first_best_upto(numbers(values@), skip as int, k as nat) == -1,
            },
        decreases values.len() - k,
    {
        if k != skip {
            match best {
                Some(at) => {
                    if values[k].exceeds(&values[at]) {
                        best = Some(k);
                    }
                },
                None => {
                    best = Some(k);
                },
            }
        }
        k = k + 1;
    }
    best
}

/// Selects the pair to contract next from a square matrix of scores and its
/// row sums: the first row with the largest row sum, and in it the first
/// position off the diagonal with the largest score.
pub fn select_best_nodes(matrix: &Vec<Vec<Natural>>, scores: &Vec<Natural>) -> (nodes: Vec<usize>)
    requires
        matrix@.len() >= 2,
        scores@.len() == matrix@.len(),
        forall|i: int| 0 <= i < matrix@.len() ==> (#[trigger] matrix[i])@.len() == matrix@.len(),
    ensures
        nodes@.len() == 2,
        (nodes[0] as int, nodes[1] as int) == best_pair(table(matrix@), numbers(scores@)),
        nodes[0] < matrix@.len(),
        nodes[1] < matrix@.len(),
        nodes[0] != nodes[1],
{
    let n: usize = matrix.len();
    proof {
        lemma_first_best_upto(numbers(scores@), n as int, n as nat);
        lemma_first_best_skip(numbers(scores@), n as int, -1, n as nat);
    }
    let i: usize = match first_best_index(scores, n) {
        Some(at) => at,
        None => {
            assert(0 != n);
            0
        },
    };
    proof {
        lemma_first_best_upto(numbers(matrix[i as int]@), i as int, n as nat);
        assert(table(matrix@)[i as int] == numbers(matrix[i as int]@));
    }
    let j: usize = match first_best_index(&matrix[i], i) {
        Some(at) => at,
        None => {
            assert(if i == 0 { 1 != i } else { 0 != i });
            0
        },
    };
    let mut nodes: Vec<usize> = Vec::new();
    nodes.push(i);
    nodes.push(j);
    nodes
}

/// Skipping a position that does not exist is like skipping none.
proof fn lemma_first_best_skip(values: Seq<nat>, skip: int, other: int, n: nat)
    requires
        n <= values.len(),
        skip < 0 || skip >= n,
        other < 0 || other >= n,
    ensures
        first_best_upto(values, skip, n) == first_best_upto(values, other, n),
    decreases n,
{
    if n > 0 {
        lemma_first_best_skip(values, skip, other, (n - 1) as nat);
    }
}

/// Product of the element counts of the first `n` arrays.
pub open spec fn joint_volume_upto(shapes: Seq<Seq<usize>>, n: nat) -> nat
    decreases n,
{
    if n == 0 {
        1
    } else {
        joint_volume_upto(shapes, (n - 1) as nat) * volume(shapes[n - 1])
    }
}

/// Product of the element counts of all arrays.
pub open spec fn joint_volume(shapes: Seq<Seq<usize>>) -> nat {
    joint_volume_upto(shapes, shapes.len())
}

proof fn lemma_others_volume(shapes: Seq<Seq<usize>>, i: int, j: int, n: nat)
    requires
        0 <= i < j,
        n <= shapes.len(),
    ensures
        others_volume_upto(shapes, i, j, n) * (if i < n {
            volume(shapes[i])
        } else {
            1
        }) * (if j < n {
            volume(shapes[j])
        } else {
            1
        }) == joint_volume_upto(shapes, n),
    decreases n,
{
    if n > 0 {
        lemma_others_volume(shapes, i, j, (n - 1) as nat);
        let others = others_volume_upto(shapes, i, j, (n - 1) as nat);
        let joint = joint_volume_upto(shapes, (n - 1) as nat);
        let here = volume(shapes[n - 1]);
        let vi = volume(shapes[i]);
        let vj = volume(shapes[j]);
        if n - 1 == i {
            assert(others * 1 * 1 == joint);
            assert(others * here * 1 == joint * here) by (nonlinear_arith)
                requires
                    others * 1 * 1 == joint,
            ;
        } else if n - 1 == j {
            assert(others * vi * 1 == joint);
            assert(others * vi * here == joint * here) by (nonlinear_arith)
                requires
                    others * vi * 1 == joint,
            ;
        } else if n - 1 < i {
            assert((others * here) * 1 * 1 == joint * here) by (nonlinear_arith)
                requires
                    others * 1 * 1 == joint,
            ;
        } else if n - 1 < j {
            assert((others * here) * vi * 1 == joint * here) by (nonlinear_arith)
                requires
                    others * vi * 1 == joint,
            ;
        } else {
            assert((others * here) * vi * vj == joint * here) by (nonlinear_arith)
                requires
                    others * vi * vj == joint,
            ;
        }
    }
}

/// The score of a pair is the size that the two arrays share, divided by the
/// product of their element counts, times the product of the element counts
/// of all arrays: this is the equation with the division multiplied out. So
/// among the pairs of one list of arrays without an empty array, a larger
/// score is a larger ratio of shared size to the product of the pair's
/// element counts.
pub proof fn lemma_score_is_scaled_ratio(
    shapes: Seq<Seq<usize>>,
    orders: Seq<Seq<i32>>,
    i: int,
    j: int,
)
    requires
        0 <= i < j < shapes.len(),
    ensures
        score(shapes, orders, i, j) * (volume(shapes[i]) * volume(shapes[j])) == shared_extent(
            shapes[i],
            orders[i],
            orders[j],
        ) * joint_volume(shapes),
        score(shapes, orders, j, i) == score(shapes, orders, i, j),
{
    lemma_others_volume(shapes, i, j, shapes.len());
    let others = others_volume_upto(shapes, i, j, shapes.len());
    let shared = shared_extent(shapes[i], orders[i], orders[j]);
    let vi = volume(shapes[i]);
    let vj = volume(shapes[j]);
    assert((shared * others) * (vi * vj) == shared * (others * vi * vj)) by (nonlinear_arith);
}

} // verus!
