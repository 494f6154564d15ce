//! Pairwise contraction: two arrays summed over matched pairs of axes.

use vstd::prelude::*;
use crate::error::ContractionError;
use crate::shape::{
    axes_in_range, checked_volume, collect_free_axes, element_count, free_axes, gather,
    is_axis_order, join, lemma_axis_orders, lemma_free_axes, pick,
};

verus! {

/// How to carry out a pairwise contraction on the elements of two arrays.
///
/// The left array's axes are reordered as `left_axes` says and the array is
/// read as a matrix of `rows` by `inner`; the right one, reordered as
/// `right_axes` says, as a matrix of `inner` by `cols`. Their matrix product,
/// read with the shape `shape`, is the contraction.
pub struct DotPlan {
    /// The left array's free axes in ascending order, then its contracted axes.
    pub left_axes: Vec<usize>,
    /// The right array's contracted axes, then its free axes in ascending order.
    pub right_axes: Vec<usize>,
    /// Product of the left array's free sizes; `None` when it does not fit a `usize`.
    pub rows: Option<usize>,
    /// Product of the contracted sizes; `None` when it does not fit a `usize`.
    pub inner: Option<usize>,
    /// Product of the right array's free sizes; `None` when it does not fit a `usize`.
    pub cols: Option<usize>,
    /// Shape of the result: the left free sizes followed by the right free sizes.
    pub shape: Vec<usize>,
}

/// The contracted axes of the left array: the first half of the flat list.
pub open spec fn left_half(axis_vec: Seq<usize>) -> Seq<usize> {
    axis_vec.subrange(0, (axis_vec.len() / 2) as int)
}

/// The contracted axes of the right array: the second half of the flat list.
pub open spec fn right_half(axis_vec: Seq<usize>) -> Seq<usize> {
    axis_vec.subrange((axis_vec.len() / 2) as int, axis_vec.len() as int)
}

/// Each half of an even flat list names axes of its own array.
pub open spec fn dot_axes_in_range(a: Seq<usize>, b: Seq<usize>, axis_vec: Seq<usize>) -> bool {
    axis_vec.len() % 2 == 0 ==> axes_in_range(left_half(axis_vec), a.len()) && axes_in_range(
        right_half(axis_vec),
        b.len(),
    )
}

/// Position of the first among the first `n` matched pairs whose two sizes
/// differ; `n` if they all agree.
pub open spec fn first_mismatch(
    a: Seq<usize>,
    b: Seq<usize>,
    left: Seq<usize>,
    right: Seq<usize>,
    n: nat,
) -> nat
    decreases n,
{
    if n == 0 {
        0
    } else {
        let before = first_mismatch(a, b, left, right, (n - 1) as nat);
        if before < n - 1 {
            before
        } else if a[left[n - 1] as int] != b[right[n - 1] as int] {
            (n - 1) as nat
        } else {
            n
        }
    }
}

/// Shape of the contraction of arrays of shapes `a` and `b` over `axis_vec`.
pub open spec fn dot_shape(a: Seq<usize>, b: Seq<usize>, axis_vec: Seq<usize>) -> Seq<usize> {
    pick(a, free_axes(left_half(axis_vec), a.len())) + pick(
        b,
        free_axes(right_half(axis_vec), b.len()),
    )
}

/// What a plan for the contraction of `a` and `b` over `axis_vec` holds.
pub open spec fn is_dot_plan(
    plan: DotPlan,
    a: Seq<usize>,
    b: Seq<usize>,
    axis_vec: Seq<usize>,
) -> bool {
    let left = left_half(axis_vec);
    let right = right_half(axis_vec);
    let left_free = free_axes(left, a.len());
    let right_free = free_axes(right, b.len());
    &&& plan.left_axes@ == left_free + left
    &&& plan.right_axes@ == right + right_free
    &&& plan.rows == checked_volume(pick(a, left_free))
    &&& plan.inner == checked_volume(pick(a, left))
    &&& plan.cols == checked_volume(pick(b, right_free))
    &&& plan.shape@ == dot_shape(a, b, axis_vec)
    &&& left.no_duplicates() ==> is_axis_order(plan.left_axes@, a.len())
    &&& right.no_duplicates() ==> is_axis_order(plan.right_axes@, b.len())
}

/// Whether every entry of `axes` is an axis of an array of the given rank.
fn all_in_range(axes: &Vec<usize>, rank: usize) -> (ok: bool)
    ensures
        ok == axes_in_range(axes@, rank as nat),
{
    let mut k: usize = 0;
    while k < axes.len()
        invariant
            k <= axes.len(),
            forall|m: int| 0 <= m < k ==> (#[trigger] axes[m]) < rank,
        decreases axes.len() - k,
    {
        if axes[k] >= rank {
            return false;
        }
        k = k + 1;
    }
    true
}

/// Whether each half of the flat list names axes of its own array: what
/// [`tensor_dot`] asks of its caller.
pub fn can_dot(a: &Vec<usize>, b: &Vec<usize>, axis_vec: &Vec<usize>) -> (ok: bool)
    ensures
        ok == dot_axes_in_range(a@, b@, axis_vec@),
{
    if axis_vec.len() % 2 != 0 {
        return true;
    }
    let (left, right) = split_axis_pairs(axis_vec);
    all_in_range(&left, a.len()) && all_in_range(&right, b.len())
}

/// Splits the flat list into the axes of the left and of the right array.
fn split_axis_pairs(axis_vec: &Vec<usize>) -> (halves: (Vec<usize>, Vec<usize>))
    requires
        axis_vec@.len() % 2 == 0,
    ensures
        halves.0@ == left_half(axis_vec@),
        halves.1@ == right_half(axis_vec@),
{
    let half: usize = axis_vec.len() / 2;
    let mut left: Vec<usize> = Vec::new();
    let mut right: Vec<usize> = Vec::new();
    let mut k: usize = 0;
    while k < half
        invariant
            k <= half,
            half * 2 == axis_vec.len(),
            left@ == axis_vec@.subrange(0, k as int),
            right@ == axis_vec@.subrange(half as int, half + k),
        decreases half - k,
    {
        left.push(axis_vec[k]);
        right.push(axis_vec[half + k]);
        assert(axis_vec@.subrange(0, k + 1) =~= axis_vec@.subrange(0, k as int).push(
            axis_vec[k as int],
        ));
        assert(axis_vec@.subrange(half as int, half + k + 1) =~= axis_vec@.subrange(
            half as int,
            half + k,
        ).push(axis_vec[half + k]));
        k = k + 1;
    }
    (left, right)
}

/// Plans the contraction of arrays of shapes `a` and `b` over the axis pairs
/// in `axis_vec`, whose first half names axes of `a` and whose second half
/// names the axes of `b` matched with them, position by position.
///
/// A list of odd length is refused, and so is the first pair whose two axes
/// differ in size. Otherwise the plan describes the matrix product that
/// computes the contraction, and the shape of its result.
pub fn tensor_dot(a: &Vec<usize>, b: &Vec<usize>, axis_vec: Vec<usize>) -> (outcome: Result<
    DotPlan,
    ContractionError,
>)
    requires
        dot_axes_in_range(a@, b@, axis_vec@),
    ensures
        axis_vec@.len() % 2 != 0 ==> outcome == Err::<DotPlan, ContractionError>(
            ContractionError::OddAxisList { len: axis_vec@.len() as usize },
        ),
        axis_vec@.len() % 2 == 0 ==> {
            let left = left_half(axis_vec@);
            let right = right_half(axis_vec@);
            let k = first_mismatch(a@, b@, left, right, left.len()) as int;
            &&& k < left.len() ==> outcome == Err::<DotPlan, ContractionError>(
                ContractionError::ShapeMismatch {
                    traced: false,
                    left_axis: left[k],
                    left_size: a[left[k] as int],
                    right_axis: right[k],
                    right_size: b[right[k] as int],
                },
            )
            &&& k >= left.len() ==> (outcome matches Ok(plan) && is_dot_plan(plan, a@, b@, axis_vec@))
        },
{
    if axis_vec.len() % 2 != 0 {
        return Err(ContractionError::OddAxisList { len: axis_vec.len() });
    }
    let (left, right) = split_axis_pairs(&axis_vec);
    let mut k: usize = 0;
    while k < left.len()
        invariant
            k <= left.len(),
            left.len() == right.len(),
            axis_vec@.len() % 2 == 0,
            left@ == left_half(axis_vec@),
            right@ == right_half(axis_vec@),
            axes_in_range(left@, a@.len()),
            axes_in_range(right@, b@.len()),
            first_mismatch(a@, b@, left@, right@, k as nat) == k,
        decreases left.len() - k,
    {
        if a[left[k]] != b[right[k]] {
            proof {
                lemma_first_mismatch_stays(a@, b@, left@, right@, (k + 1) as nat, left@.len());
            }
            return Err(
                ContractionError::ShapeMismatch {
                    traced: false,
                    left_axis: left[k],
                    left_size: a[left[k]],
                    right_axis: right[k],
                    right_size: b[right[k]],
                },
            );
        }
        k = k + 1;
    }
    let left_free = collect_free_axes(&left, a.len());
    let right_free = collect_free_axes(&right, b.len());
    proof {
        lemma_free_axes(left@, a@.len());
        lemma_free_axes(right@, b@.len());
        if left@.no_duplicates() {
            lemma_axis_orders(left@, a@.len());
        }
        if right@.no_duplicates() {
            lemma_axis_orders(right@, b@.len());
        }
    }
    let left_kept = gather(a, &left_free);
    let right_kept = gather(b, &right_free);
    let summed = gather(a, &left);
    Ok(
        DotPlan {
            left_axes: join(&left_free, &left),
            right_axes: join(&right, &right_free),
            rows: element_count(&left_kept),
            inner: element_count(&summed),
            cols: element_count(&right_kept),
            shape: join(&left_kept, &right_kept),
        },
    )
}

/// Once a mismatch was found, looking at more pairs does not change which
/// one was first.
proof fn lemma_first_mismatch_stays(
    a: Seq<usize>,
    b: Seq<usize>,
    left: Seq<usize>,
    right: Seq<usize>,
    m: nat,
    n: nat,
)
    requires
        m <= n,
        first_mismatch(a, b, left, right, m) < m,
    ensures
        first_mismatch(a, b, left, right, n) == first_mismatch(a, b, left, right, m),
    decreases n,
{
    if m < n {
        lemma_first_mismatch_stays(a, b, left, right, m, (n - 1) as nat);
    }
}

} // verus!
