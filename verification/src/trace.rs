//! Trace: summing one array over the diagonal of two of its axes.

use vstd::prelude::*;
use crate::error::ContractionError;
use crate::shape::{
    checked_volume, collect_free_axes, element_count, free_axes, gather, is_axis_order, join,
    lemma_axis_orders, pick,
};

verus! {

/// How to carry out a trace on the elements of an array.
///
/// The array's axes are reordered as `axes` says, which brings the two traced
/// axes to the front. Seen as `extent` by `extent` slices of `rest` elements
/// each, the slices on the diagonal are added up, and the sum takes `shape`.
pub struct TracePlan {
    /// The two traced axes, followed by the others in ascending order.
    pub axes: Vec<usize>,
    /// Size of each of the two traced axes.
    pub extent: usize,
    /// Number of elements of the result; `None` when it does not fit a `usize`.
    pub rest: Option<usize>,
    /// Shape of the result: the sizes of the axes that are not traced.
    pub shape: Vec<usize>,
}

/// The axes named for a trace are two axes of the array.
pub open spec fn trace_axes_in_range(shape: Seq<usize>, axes: Seq<usize>) -> bool {
    axes.len() == 2 ==> axes[0] < shape.len() && axes[1] < shape.len()
}

/// Whether the axes named for a trace are axes of the array: what [`trace`]
/// asks of its caller.
pub fn can_trace(shape: &Vec<usize>, axes: &Vec<usize>) -> (ok: bool)
    ensures
        ok == trace_axes_in_range(shape@, axes@),
{
    axes.len() != 2 || (axes[0] < shape.len() && axes[1] < shape.len())
}

/// Plans the trace of an array of the given shape over the two axes in `axes`.
///
/// Anything but two axes is refused, and so are two axes of different sizes.
/// Otherwise the result keeps the remaining axes in their order.
pub fn trace(shape: &Vec<usize>, axes: Vec<usize>) -> (outcome: Result<TracePlan, ContractionError>)
    requires
        trace_axes_in_range(shape@, axes@),
    ensures
        axes@.len() != 2 ==> outcome == Err::<TracePlan, ContractionError>(
            ContractionError::InvalidAxisCount { count: axes@.len() as usize },
        ),
        axes@.len() == 2 && shape[axes[0] as int] != shape[axes[1] as int] ==> outcome == Err::<
            TracePlan,
            ContractionError,
        >(
            ContractionError::ShapeMismatch {
                traced: true,
                left_axis: axes[0],
                left_size: shape[axes[0] as int],
                right_axis: axes[1],
                right_size: shape[axes[1] as int],
            },
        ),
        axes@.len() == 2 && shape[axes[0] as int] == shape[axes[1] as int] ==> {
            &&& outcome matches Ok(plan)
            &&& plan.axes@ == axes@ + free_axes(axes@, shape@.len())
            &&& plan.extent == shape[axes[0] as int]
            &&& plan.shape@ == pick(shape@, free_axes(axes@, shape@.len()))
            &&& plan.rest == checked_volume(plan.shape@)
            &&& axes[0] != axes[1] ==> is_axis_order(plan.axes@, shape@.len())
        },
{
    if axes.len() != 2 {
        return Err(ContractionError::InvalidAxisCount { count: axes.len() });
    }
    let first: usize = axes[0];
    let second: usize = axes[1];
    if shape[first] != shape[second] {
        return Err(
            ContractionError::ShapeMismatch {
                traced: true,
                left_axis: first,
                left_size: shape[first],
                right_axis: second,
                right_size: shape[second],
            },
        );
    }
    let kept = collect_free_axes(&axes, shape.len());
    proof {
        crate::shape::lemma_free_axes(axes@, shape@.len());
        if first != second {
            lemma_axis_orders(axes@, shape@.len());
        }
    }
    let kept_shape = gather(shape, &kept);
    let rest = element_count(&kept_shape);
    let order = join(&axes, &kept);
    Ok(TracePlan { axes: order, extent: shape[first], rest, shape: kept_shape })
}

} // verus!
