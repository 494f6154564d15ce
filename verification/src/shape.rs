//! Shapes of dense arrays: element counts, axis selections and axis orders.

use vstd::prelude::*;

verus! {

/// Product of the first `n` axis sizes of `shape`.
pub open spec fn volume_upto(shape: Seq<usize>, n: nat) -> nat
    decreases n,
{
    if n == 0 {
        1
    } else {
        volume_upto(shape, (n - 1) as nat) * (shape[n - 1] as nat)
    }
}

/// Number of elements of an array of the given shape.
pub open spec fn volume(shape: Seq<usize>) -> nat {
    volume_upto(shape, shape.len())
}

/// The element count as a machine integer, where it fits one.
pub open spec fn checked_volume(shape: Seq<usize>) -> Option<usize> {
    if volume(shape) <= usize::MAX {
        Some(volume(shape) as usize)
    } else {
        None
    }
}

/// The entries of `values` at the axes that `axes` lists, in the order of `axes`.
/// For a shape these are sizes, for a label order labels.
pub open spec fn pick<T>(values: Seq<T>, axes: Seq<usize>) -> Seq<T> {
    Seq::new(axes.len(), |k: int| values[axes[k] as int])
}

/// The axes below `rank` that `taken` does not list, in ascending order.
pub open spec fn free_axes(taken: Seq<usize>, rank: nat) -> Seq<usize>
    decreases rank,
{
    if rank == 0 {
        Seq::empty()
    } else if taken.contains((rank - 1) as usize) {
        free_axes(taken, (rank - 1) as nat)
    } else {
        free_axes(taken, (rank - 1) as nat).push((rank - 1) as usize)
    }
}

/// Every entry of `axes` is an axis of an array of the given rank.
pub open spec fn axes_in_range(axes: Seq<usize>, rank: nat) -> bool {
    forall|k: int| 0 <= k < axes.len() ==> (#[trigger] axes[k]) < rank
}

/// `order` lists every axis below `rank` once and nothing else.
pub open spec fn is_axis_order(order: Seq<usize>, rank: nat) -> bool {
    &&& axes_in_range(order, rank)
    &&& order.no_duplicates()
    &&& forall|axis: usize| axis < rank ==> order.contains(axis)
}

/// The product over a prefix depends on that prefix only.
pub proof fn lemma_volume_prefix(a: Seq<usize>, b: Seq<usize>, n: nat)
    requires
        n <= a.len(),
        n <= b.len(),
        forall|k: int| 0 <= k < n ==> a[k] == b[k],
    ensures
        volume_upto(a, n) == volume_upto(b, n),
    decreases n,
{
    if n > 0 {
        lemma_volume_prefix(a, b, (n - 1) as nat);
    }
}

/// An axis of size zero among the first `n` makes their product zero.
pub proof fn lemma_volume_zero(shape: Seq<usize>, k: int, n: nat)
    requires
        0 <= k < n <= shape.len(),
        shape[k] == 0,
    ensures
        volume_upto(shape, n) == 0,
    decreases n,
{
    if k < n - 1 {
        lemma_volume_zero(shape, k, (n - 1) as nat);
        assert(0 * (shape[n - 1] as nat) == 0);
    }
}

/// Without an axis of size zero the product never shrinks as axes are added.
pub proof fn lemma_volume_monotone(shape: Seq<usize>, m: nat, n: nat)
    requires
        m <= n <= shape.len(),
        forall|k: int| 0 <= k < n ==> shape[k] != 0,
    ensures
        1 <= volume_upto(shape, m) <= volume_upto(shape, n),
    decreases n,
{
    if n == 0 {
    } else if m == n {
        lemma_volume_monotone(shape, (n - 1) as nat, (n - 1) as nat);
        let p = volume_upto(shape, (n - 1) as nat);
        let d = shape[n - 1] as nat;
        assert(p * d >= 1) by (nonlinear_arith)
            requires
                p >= 1,
                d >= 1,
        ;
    } else {
        lemma_volume_monotone(shape, m, (n - 1) as nat);
        let p = volume_upto(shape, (n - 1) as nat);
        let d = shape[n - 1] as nat;
        assert(p * d >= p) by (nonlinear_arith)
            requires
                d >= 1,
        ;
    }
}

/// The element count of a concatenation is the product of the two counts.
pub proof fn lemma_volume_concat(a: Seq<usize>, b: Seq<usize>)
    ensures
        volume(a + b) == volume(a) * volume(b),
{
    lemma_volume_concat_upto(a, b, b.len());
}

proof fn lemma_volume_concat_upto(a: Seq<usize>, b: Seq<usize>, n: nat)
    requires
        n <= b.len(),
    ensures
        volume_upto(a + b, a.len() + n) == volume(a) * volume_upto(b, n),
    decreases n,
{
    if n == 0 {
        lemma_volume_prefix(a + b, a, a.len());
        assert(volume(a) * 1 == volume(a));
    } else {
        lemma_volume_concat_upto(a, b, (n - 1) as nat);
        let va = volume(a);
        let vb = volume_upto(b, (n - 1) as nat);
        let d = b[n - 1] as nat;
        assert((a + b)[a.len() + n - 1] == b[n - 1]);
        assert((va * vb) * d == va * (vb * d)) by (nonlinear_arith);
    }
}

/// Whether `axis` is listed in `axes`.
pub fn has_axis(axes: &Vec<usize>, axis: usize) -> (found: bool)
    ensures
        found == axes@.contains(axis),
{
    let mut k: usize = 0;
    while k < axes.len()
        invariant
            k <= axes.len(),
            forall|m: int| 0 <= m < k ==> axes[m] != axis,
        decreases axes.len() - k,
    {
        if axes[k] == axis {
            return true;
        }
        k = k + 1;
    }
    false
}

/// Lists in ascending order the axes below `rank` that `taken` leaves out.
pub fn collect_free_axes(taken: &Vec<usize>, rank: usize) -> (free: Vec<usize>)
    ensures
        free@ == free_axes(taken@, rank as nat),
{
    let mut free: Vec<usize> = Vec::new();
    let mut axis: usize = 0;
    while axis < rank
        invariant
            axis <= rank,
            free@ == free_axes(taken@, axis as nat),
        decreases rank - axis,
    {
        if !has_axis(taken, axis) {
            free.push(axis);
        }
        axis = axis + 1;
    }
    free
}

/// Reads the entries at the listed axes off a shape or a label order.
pub fn gather<T: Copy>(values: &Vec<T>, axes: &Vec<usize>) -> (picked: Vec<T>)
    requires
        axes_in_range(axes@, values@.len()),
    ensures
        picked@ == pick(values@, axes@),
{
    let mut picked: Vec<T> = Vec::new();
    let mut k: usize = 0;
    while k < axes.len()
        invariant
            k <= axes.len(),
            axes_in_range(axes@, values@.len()),
            picked@.len() == k,
            forall|m: int| 0 <= m < k ==> picked[m] == values[axes[m] as int],
        decreases axes.len() - k,
    {
        picked.push(values[axes[k]]);
        k = k + 1;
    }
    assert(picked@ =~= pick(values@, axes@));
    picked
}

/// A copy of a list.
pub fn copy_of<T: Copy>(list: &Vec<T>) -> (copy: Vec<T>)
    ensures
        copy@ == list@,
{
    let mut copy: Vec<T> = Vec::new();
    let mut k: usize = 0;
    while k < list.len()
        invariant
            k <= list.len(),
            copy@ == list@.take(k as int),
        decreases list.len() - k,
    {
        copy.push(list[k]);
        assert(list@.take(k + 1) =~= list@.take(k as int).push(list[k as int]));
        k = k + 1;
    }
    assert(list@.take(list@.len() as int) =~= list@);
    copy
}

/// One list followed by another.
pub fn join<T: Copy>(head: &Vec<T>, tail: &Vec<T>) -> (joined: Vec<T>)
    ensures
        joined@ == head@ + tail@,
{
    let mut joined: Vec<T> = Vec::new();
    let mut k: usize = 0;
    while k < head.len()
        invariant
            k <= head.len(),
            joined@ == head@.take(k as int),
        decreases head.len() - k,
    {
        joined.push(head[k]);
        assert(head@.take(k + 1) =~= head@.take(k as int).push(head[k as int]));
        k = k + 1;
    }
    let mut k: usize = 0;
    while k < tail.len()
        invariant
            k <= tail.len(),
            joined@ == head@ + tail@.take(k as int),
        decreases tail.len() - k,
    {
        joined.push(tail[k]);
        assert(head@ + tail@.take(k + 1) =~= (head@ + tail@.take(k as int)).push(tail[k as int]));
        k = k + 1;
    }
    assert(head@.take(head@.len() as int) =~= head@);
    assert(tail@.take(tail@.len() as int) =~= tail@);
    joined
}

/// What the free axes are: exactly the axes below `rank` that `taken` leaves
/// out, each once, in ascending order.
pub proof fn lemma_free_axes(taken: Seq<usize>, rank: nat)
    requires
        rank <= usize::MAX,
    ensures
        axes_in_range(free_axes(taken, rank), rank),
        free_axes(taken, rank).len() <= rank,
        forall|k: int|
            0 <= k < free_axes(taken, rank).len()
                ==> !taken.contains(#[trigger] free_axes(taken, rank)[k]),
        forall|k: int, m: int|
            0 <= k < m < free_axes(taken, rank).len()
                ==> free_axes(taken, rank)[k] < free_axes(taken, rank)[m],
        forall|axis: usize|
            axis < rank && !taken.contains(axis) ==> free_axes(taken, rank).contains(axis),
    decreases rank,
{
    if rank > 0 {
        let below = free_axes(taken, (rank - 1) as nat);
        let last = (rank - 1) as usize;
        lemma_free_axes(taken, (rank - 1) as nat);
        let free = free_axes(taken, rank);
        assert forall|axis: usize|
            axis < rank && !taken.contains(axis) implies free.contains(axis) by {
            if axis < rank - 1 {
                let k = choose|k: int| 0 <= k < below.len() && below[k] == axis;
                assert(free[k] == axis);
            } else {
                assert(free[free.len() - 1] == axis);
            }
        }
    }
}

/// The taken axes followed by the free ones, or the free ones followed by the
/// taken ones, list every axis once.
pub proof fn lemma_axis_orders(taken: Seq<usize>, rank: nat)
    requires
        rank <= usize::MAX,
        axes_in_range(taken, rank),
        taken.no_duplicates(),
    ensures
        is_axis_order(taken + free_axes(taken, rank), rank),
        is_axis_order(free_axes(taken, rank) + taken, rank),
{
    lemma_free_axes(taken, rank);
    let free = free_axes(taken, rank);
    let front = taken + free;
    let back = free + taken;
    assert forall|axis: usize| axis < rank implies front.contains(axis) && back.contains(axis) by {
        if taken.contains(axis) {
            let k = choose|k: int| 0 <= k < taken.len() && taken[k] == axis;
            assert(front[k] == axis);
            assert(back[free.len() + k] == axis);
        } else {
            let k = choose|k: int| 0 <= k < free.len() && free[k] == axis;
            assert(front[taken.len() + k] == axis);
            assert(back[k] == axis);
        }
    }
    assert forall|i: int, j: int|
        0 <= i < front.len() && 0 <= j < front.len() && i != j implies front[i] != front[j] by {
        if i < taken.len() && j >= taken.len() {
            assert(!taken.contains(free[j - taken.len()]));
        }
        if j < taken.len() && i >= taken.len() {
            assert(!taken.contains(free[i - taken.len()]));
        }
    }
    assert forall|i: int, j: int|
        0 <= i < back.len() && 0 <= j < back.len() && i != j implies back[i] != back[j] by {
        if i < free.len() && j >= free.len() {
            assert(!taken.contains(free[i]));
        }
        if j < free.len() && i >= free.len() {
            assert(!taken.contains(free[j]));
        }
    }
}

/// Counts the elements of an array of the given shape; `None` when the count
/// does not fit a `usize`.
pub fn element_count(shape: &Vec<usize>) -> (count: Option<usize>)
    ensures
        count == checked_volume(shape@),
{
    let n: usize = shape.len();
    let mut k: usize = 0;
    while k < n
        invariant
            n == shape.len(),
            k <= n,
            forall|m: int| 0 <= m < k ==> shape[m] != 0,
        decreases n - k,
    {
        if shape[k] == 0 {
            proof {
                lemma_volume_zero(shape@, k as int, n as nat);
            }
            return Some(0);
        }
        k = k + 1;
    }
    let mut product: usize = 1;
    let mut k: usize = 0;
    while k < n
        invariant
            n == shape.len(),
            k <= n,
            product == volume_upto(shape@, k as nat),
            forall|m: int| 0 <= m < n ==> shape[m] != 0,
        decreases n - k,
    {
        match product.checked_mul(shape[k]) {
            Some(next) => {
                product = next;
            },
            None => {
                proof {
                    lemma_volume_monotone(shape@, (k + 1) as nat, n as nat);
                }
                return None;
            },
        }
        k = k + 1;
    }
    Some(product)
}

/// Axis `k` of an array from which the axes `p` and `q` were taken, as an
/// axis of the array as it was.
pub open spec fn axis_before_removal(k: int, p: int, q: int) -> int {
    if k < p {
        k
    } else if k + 1 < q {
        k + 1
    } else {
        k + 2
    }
}

proof fn lemma_free_axes_pair(p: int, q: int, rank: nat)
    requires
        0 <= p < q <= usize::MAX,
        rank <= usize::MAX,
    ensures
        ({
            let free = free_axes(seq![p as usize, q as usize], rank);
            &&& free.len() == rank - (if rank > p { 1int } else { 0int }) - (if rank > q { 1int } else { 0int })
            &&& forall|k: int| 0 <= k < free.len() ==> free[k] == axis_before_removal(k, p, q)
        }),
    decreases rank,
{
    let taken = seq![p as usize, q as usize];
    if rank > 0 {
        lemma_free_axes_pair(p, q, (rank - 1) as nat);
        let last = (rank - 1) as usize;
        assert(taken[0] == p && taken[1] == q);
        if last == p || last == q {
            assert(taken.contains(last));
        } else {
            assert(!taken.contains(last));
        }
    }
}

/// Keeping all axes but two is removing the later of the two and then the
/// earlier.
pub proof fn lemma_pick_without_pair<T>(values: Seq<T>, p: int, q: int)
    requires
        0 <= p < q < values.len(),
        values.len() <= usize::MAX,
    ensures
        pick(values, free_axes(seq![p as usize, q as usize], values.len())) == values.remove(
            q,
        ).remove(p),
{
    lemma_free_axes_pair(p, q, values.len());
    assert(pick(values, free_axes(seq![p as usize, q as usize], values.len())) =~= values.remove(
        q,
    ).remove(p));
}

/// Taking one axis out of a shape divides the element count by its size.
pub proof fn lemma_volume_remove(shape: Seq<usize>, at: int)
    requires
        0 <= at < shape.len(),
    ensures
        volume(shape) == volume(shape.remove(at)) * shape[at],
{
    let head = shape.take(at);
    let tail = shape.skip(at + 1);
    let one = head.push(shape[at]);
    assert(shape =~= one + tail);
    assert(shape.remove(at) =~= head + tail);
    lemma_volume_concat(one, tail);
    lemma_volume_concat(head, tail);
    lemma_volume_prefix(one, head, head.len());
    let h = volume(head);
    let t = volume(tail);
    let d = shape[at] as nat;
    assert(volume(one) == h * d);
    assert((h * d) * t == (h * t) * d) by (nonlinear_arith);
}

/// Reordering the axes of an array does not change its element count.
pub proof fn lemma_volume_permuted(shape: Seq<usize>, order: Seq<usize>)
    requires
        order.len() == shape.len(),
        shape.len() <= usize::MAX,
        is_axis_order(order, shape.len()),
    ensures
        volume(pick(shape, order)) == volume(shape),
    decreases shape.len(),
{
    let n = shape.len();
    if n > 0 {
        let last = (n - 1) as usize;
        assert(order.contains(last));
        let at = choose|at: int| 0 <= at < order.len() && order[at] == last;
        let rest = order.remove(at);
        let front = shape.take(n - 1);
        assert forall|k: int| 0 <= k < rest.len() implies (#[trigger] rest[k]) < n - 1 by {
            if k < at {
                assert(rest[k] == order[k]);
            } else {
                assert(rest[k] == order[k + 1]);
            }
        }
        assert forall|k: int, m: int|
            0 <= k < rest.len() && 0 <= m < rest.len() && k != m implies rest[k]
            != rest[m] by {
            let kb = if k < at { k } else { k + 1 };
            let mb = if m < at { m } else { m + 1 };
            assert(rest[k] == order[kb] && rest[m] == order[mb]);
        }
        assert forall|axis: usize| axis < n - 1 implies rest.contains(axis) by {
            assert(order.contains(axis));
            let q = choose|q: int| 0 <= q < order.len() && order[q] == axis;
            if q < at {
                assert(rest[q] == axis);
            } else {
                assert(rest[q - 1] == axis);
            }
        }
        let picked = pick(shape, order);
        assert(picked.remove(at) =~= pick(front, rest)) by {
            assert forall|k: int| 0 <= k < rest.len() implies picked.remove(at)[k] == pick(
                front,
                rest,
            )[k] by {
                assert(rest[k] < n - 1);
                if k < at {
                    assert(rest[k] == order[k]);
                } else {
                    assert(rest[k] == order[k + 1]);
                }
            }
        }
        lemma_volume_remove(picked, at);
        lemma_volume_permuted(front, rest);
        lemma_volume_prefix(shape, front, (n - 1) as nat);
    } else {
        assert(pick(shape, order) =~= shape);
    }
}

} // verus!
