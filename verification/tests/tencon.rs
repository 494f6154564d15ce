use ndarray::{Array, Array2, ArrayBase, ArrayD, Axis, Data, Ix2, IxDyn};
use qua_ten_net::error::ContractionError;
use qua_ten_net::tencon::{
    can_contract, contract, contract_map, copy_lists, final_order, has_room_for_labels,
    indices_validation, is_aligned, largest_label, order_reformat, order_splice, order_to_index,
    plan_contraction, prepare_contraction_data, shape_reformat, trace_check, Contraction,
};
use qua_ten_net::tendot::tensor_dot;
use qua_ten_net::trace::trace;

// The product of two matrices, element by element.
fn matmul<S, T>(left: &ArrayBase<S, Ix2>, right: &ArrayBase<T, Ix2>) -> Array2<f64>
where
    S: Data<Elem = f64>,
    T: Data<Elem = f64>,
{
    let (rows, inner) = left.dim();
    let (_, cols) = right.dim();
    let mut product = Array2::<f64>::zeros((rows, cols));
    for r in 0..rows {
        for c in 0..cols {
            let mut sum = 0.0;
            for k in 0..inner {
                sum += left[[r, k]] * right[[k, c]];
            }
            product[[r, c]] = sum;
        }
    }
    product
}

fn run_trace(tensor: &ArrayD<f64>, axes: &[usize]) -> ArrayD<f64> {
    let plan = trace(&tensor.shape().to_vec(), axes.to_vec()).expect("a trace");
    let rest = plan.rest.expect("rest fits");
    let moved = tensor
        .view()
        .permuted_axes(IxDyn(&plan.axes))
        .to_shape(vec![plan.extent, plan.extent, rest])
        .expect("ShapeError!")
        .into_owned();
    let mut sum = ArrayD::<f64>::zeros(IxDyn(&[rest]));
    for i in 0..plan.extent {
        let plane = moved.index_axis(Axis(0), i);
        let line = plane.index_axis(Axis(0), i);
        sum = &sum + &line;
    }
    sum.to_shape(plan.shape.clone())
        .expect("ShapeError!")
        .into_owned()
}

fn run_dot(a: &ArrayD<f64>, b: &ArrayD<f64>, axes: &[usize]) -> ArrayD<f64> {
    let plan = tensor_dot(&a.shape().to_vec(), &b.shape().to_vec(), axes.to_vec()).expect("a dot");
    let rows = plan.rows.expect("rows fit");
    let inner = plan.inner.expect("inner fits");
    let cols = plan.cols.expect("cols fit");
    let left = a.view().permuted_axes(IxDyn(&plan.left_axes));
    let left = left.to_shape((rows, inner)).expect("ShapeError!");
    let right = b.view().permuted_axes(IxDyn(&plan.right_axes));
    let right = right.to_shape((inner, cols)).expect("ShapeError!");
    matmul(&left, &right)
        .into_dyn()
        .to_shape(plan.shape.clone())
        .expect("ShapeError!")
        .into_owned()
}

fn run_contraction(tensors: Vec<ArrayD<f64>>, contraction: &Contraction) -> ArrayD<f64> {
    let mut list: Vec<ArrayD<f64>> = Vec::new();
    for (tensor, shape) in tensors.iter().zip(contraction.shapes.iter()) {
        list.push(
            tensor
                .to_shape(shape.clone())
                .expect("ShapeError!")
                .into_owned(),
        );
    }
    for step in contraction.steps.iter() {
        let (i, j) = (step.pair[0], step.pair[1]);
        for axes in step.left_traces.iter() {
            list[i] = run_trace(&list[i], axes);
        }
        for axes in step.right_traces.iter() {
            list[j] = run_trace(&list[j], axes);
        }
        list[i] = run_dot(&list[i], &list[j], &step.axes);
        list.remove(j);
    }
    assert_eq!(list.len(), 1);
    let mut last = list.remove(0);
    for axes in contraction.closing_traces.iter() {
        last = run_trace(&last, axes);
    }
    let result = last.permuted_axes(IxDyn(&contraction.axes));
    assert_eq!(result.shape(), &contraction.shape[..]);
    result
}

fn arange(shape: Vec<usize>) -> ArrayD<f64> {
    let count: usize = shape.iter().product();
    Array::from_shape_vec(shape, (0..count).map(|x| x as f64).collect()).expect("ShapeError!")
}

fn shapes_of(tensors: &[ArrayD<f64>]) -> Vec<Vec<usize>> {
    tensors.iter().map(|t| t.shape().to_vec()).collect()
}

#[test]
fn test_contract() {
    let vec_a: Vec<f64> = (0..12).map(|x| x as f64).collect();
    let a = Array::from_shape_vec(vec![2, 3, 2], vec_a).expect("ShapeError!");

    let vec_b = (0..81).map(|x| x as f64).collect();
    let b = Array::from_shape_vec(vec![3, 3, 3, 3], vec_b).expect("ShapeError!");

    let tensors = vec![a.clone(), a, b];
    let con = contract(
        shapes_of(&tensors),
        vec![vec![-1, 1, 2], vec![2, 3, -2], vec![1, 3, -3, -4]],
    )
    .map(|contraction| run_contraction(tensors, &contraction));

    let correct = Array::from_shape_vec(
        vec![2, 2, 3, 3],
        vec![
            12852.0, 13104.0, 13356.0, 13608.0, 13860.0, 14112.0, 14364.0, 14616.0, 14868.0,
            15120.0, 15417.0, 15714.0, 16011.0, 16308.0, 16605.0, 16902.0, 17199.0, 17496.0,
            33588.0, 34380.0, 35172.0, 35964.0, 36756.0, 37548.0, 38340.0, 39132.0, 39924.0,
            39744.0, 40689.0, 41634.0, 42579.0, 43524.0, 44469.0, 45414.0, 46359.0, 47304.0,
        ],
    )
    .expect("ShapeError!");

    assert_eq!(con.unwrap(), correct);
}

#[test]
fn contract_lays_out_every_step() {
    let contraction = contract(
        vec![vec![2, 3, 2], vec![2, 3, 2], vec![3, 3, 3, 3]],
        vec![vec![-1, 1, 2], vec![2, 3, -2], vec![1, 3, -3, -4]],
    )
    .expect("a contraction");
    assert_eq!(
        contraction.shapes,
        vec![vec![2, 3, 2, 1], vec![2, 3, 2, 1], vec![3, 3, 3, 3, 1, 1]]
    );
    assert_eq!(contraction.steps.len(), 2);
    assert_eq!(contraction.steps[0].pair, vec![0, 1]);
    assert!(contraction.steps[0].left_traces.is_empty());
    assert!(contraction.steps[0].right_traces.is_empty());
    assert_eq!(contraction.steps[0].axes, vec![2, 0]);
    assert_eq!(contraction.steps[1].pair, vec![0, 1]);
    assert_eq!(contraction.steps[1].axes, vec![1, 2, 3, 5, 0, 4, 1, 5]);
    assert!(contraction.closing_traces.is_empty());
    assert_eq!(contraction.axes, vec![0, 1, 2, 3]);
    assert_eq!(contraction.shape, vec![2, 2, 3, 3]);
    assert_eq!(contraction.labels, vec![-1, -2, -3, -4]);
}

#[test]
fn contract_refuses_a_label_that_occurs_once() {
    let outcome = contract(
        vec![vec![2, 3], vec![3, 4]],
        vec![vec![-1, 1], vec![2, -2]],
    );
    assert_eq!(
        outcome.err(),
        Some(ContractionError::InvalidLabelCount { label: 1 })
    );
}

#[test]
fn contract_refuses_a_free_label_that_occurs_twice() {
    let outcome = contract(
        vec![vec![2, 3], vec![3, 2]],
        vec![vec![-1, 1], vec![1, -1]],
    );
    let error = outcome.err().expect("an error");
    assert_eq!(error, ContractionError::InvalidLabelCount { label: -1 });
    assert_eq!(
        error.message(),
        "Index -1 must appear at most once in contraction order list."
    );
}

#[test]
fn contract_refuses_matched_axes_of_different_sizes() {
    let outcome = contract(
        vec![vec![2, 3], vec![4, 5]],
        vec![vec![-1, 1], vec![1, -2]],
    );
    assert_eq!(
        outcome.err(),
        Some(ContractionError::ShapeMismatch {
            traced: false,
            left_axis: 1,
            left_size: 3,
            right_axis: 0,
            right_size: 4
        })
    );
}

#[test]
fn contract_refuses_a_trace_over_different_sizes() {
    let outcome = contract(
        vec![vec![2, 3, 5], vec![5]],
        vec![vec![1, 1, 2], vec![2]],
    );
    assert_eq!(
        outcome.err(),
        Some(ContractionError::ShapeMismatch {
            traced: true,
            left_axis: 0,
            left_size: 2,
            right_axis: 1,
            right_size: 3
        })
    );
}

#[test]
fn contract_is_a_matrix_product() {
    let a = arange(vec![2, 3]);
    let b = arange(vec![3, 2]);
    let tensors = vec![a, b];
    let contraction =
        contract(shapes_of(&tensors), vec![vec![-1, 1], vec![1, -2]]).expect("a contraction");
    assert_eq!(contraction.labels, vec![-1, -2]);
    let product = run_contraction(tensors, &contraction);
    let expected =
        Array::from_shape_vec(vec![2, 2], vec![10.0, 13.0, 28.0, 40.0]).expect("ShapeError!");
    assert_eq!(product, expected);
}

#[test]
fn contract_puts_the_largest_label_first() {
    let a = arange(vec![2, 3]);
    let b = arange(vec![3, 2]);
    let tensors = vec![a, b];
    let contraction =
        contract(shapes_of(&tensors), vec![vec![-2, 1], vec![1, -1]]).expect("a contraction");
    assert_eq!(contraction.labels, vec![-1, -2]);
    assert_eq!(contraction.axes, vec![1, 0]);
    let product = run_contraction(tensors, &contraction);
    let expected =
        Array::from_shape_vec(vec![2, 2], vec![10.0, 28.0, 13.0, 40.0]).expect("ShapeError!");
    assert_eq!(product, expected);
}

#[test]
fn contract_traces_a_label_within_one_array() {
    // The trace of a 3 by 3 matrix, times a vector.
    let m = arange(vec![3, 3]);
    let v = Array::from_shape_vec(vec![2], vec![1.0, 10.0])
        .expect("ShapeError!")
        .into_dyn();
    let tensors = vec![m, v];
    let contraction =
        contract(shapes_of(&tensors), vec![vec![1, 1], vec![-1]]).expect("a contraction");
    assert_eq!(contraction.steps.len(), 1);
    let step = &contraction.steps[0];
    let traces = if step.pair[0] == 0 {
        &step.left_traces
    } else {
        &step.right_traces
    };
    assert_eq!(traces, &vec![vec![0, 1]]);
    assert_eq!(contraction.shape, vec![2]);
    let result = run_contraction(tensors, &contraction);
    let expected = Array::from_shape_vec(vec![2], vec![12.0, 120.0])
        .expect("ShapeError!")
        .into_dyn();
    assert_eq!(result, expected);
}

#[test]
fn contract_of_one_array_traces_it() {
    let t = arange(vec![2, 2, 2, 2]);
    let tensors = vec![t];
    let contraction = contract(shapes_of(&tensors), vec![vec![-1, 7, -2, 7]]).expect("a contraction");
    assert!(contraction.steps.is_empty());
    assert_eq!(contraction.shapes, vec![vec![2, 2, 2, 2]]);
    assert_eq!(contraction.closing_traces, vec![vec![1, 3]]);
    assert_eq!(contraction.labels, vec![-1, -2]);
    assert_eq!(contraction.shape, vec![2, 2]);
    let result = run_contraction(tensors, &contraction);
    let expected =
        Array::from_shape_vec(vec![2, 2], vec![5.0, 9.0, 21.0, 25.0]).expect("ShapeError!");
    assert_eq!(result, expected);
}

#[test]
fn contract_without_shared_labels_is_an_outer_product() {
    let t = arange(vec![2, 3]);
    let tensors = vec![t.clone(), t.clone()];
    let contraction =
        contract(shapes_of(&tensors), vec![vec![-1, -2], vec![-3, -4]]).expect("a contraction");
    assert_eq!(contraction.labels, vec![-1, -2, -3, -4]);
    assert_eq!(contraction.shape, vec![2, 3, 2, 3]);
    let outer = run_contraction(tensors, &contraction);
    assert_eq!(outer.len(), t.len() * t.len());
    assert_eq!(outer[[1, 2, 1, 1]], 5.0 * 4.0);
    assert_eq!(outer[[0, 1, 1, 2]], 1.0 * 5.0);
}

#[test]
fn contract_does_not_depend_on_the_order_of_the_steps() {
    // A chain of four matrices: the product is the same however it is paired.
    let a = arange(vec![2, 3]);
    let b = arange(vec![3, 4]);
    let c = arange(vec![4, 2]);
    let d = arange(vec![2, 5]);
    let matrix = |t: &ArrayD<f64>| t.clone().into_dimensionality::<Ix2>().expect("a matrix");
    let expected = matmul(&matmul(&matmul(&matrix(&a), &matrix(&b)), &matrix(&c)), &matrix(&d))
        .into_dyn();
    let tensors = vec![a, b, c, d];
    let contraction = contract(
        shapes_of(&tensors),
        vec![vec![-1, 1], vec![1, 2], vec![2, 3], vec![3, -2]],
    )
    .expect("a contraction");
    assert_eq!(contraction.steps.len(), 3);
    assert_eq!(run_contraction(tensors, &contraction), expected);
}

#[test]
fn indices_validation_accepts_valid_labels() {
    let labels = vec![vec![1, 2, -1], vec![1, -2], vec![2, -3]];
    assert_eq!(indices_validation(&labels), Ok(()));
    assert_eq!(indices_validation(&[]), Ok(()));
    assert_eq!(indices_validation(&[vec![], vec![]]), Ok(()));
}

#[test]
fn indices_validation_names_the_first_misfit() {
    let once = vec![vec![1, 2, -1], vec![2, -2]];
    assert_eq!(
        indices_validation(&once),
        Err(ContractionError::InvalidLabelCount { label: 1 })
    );
    let thrice = vec![vec![-5, 4], vec![4, 3, 3], vec![4, -5]];
    assert_eq!(
        indices_validation(&thrice),
        Err(ContractionError::InvalidLabelCount { label: -5 })
    );
    let thrice = vec![vec![4], vec![4, 3, 3], vec![4]];
    let error = indices_validation(&thrice).err().expect("an error");
    assert_eq!(error, ContractionError::InvalidLabelCount { label: 4 });
    assert_eq!(
        error.message(),
        "Index 4 must appear exactly twice in contraction order list."
    );
}

#[test]
fn indices_validation_leaves_zero_alone() {
    assert_eq!(indices_validation(&[vec![0, 0, 0], vec![0]]), Ok(()));
}

#[test]
fn prepare_contraction_data_adds_the_extra_axes() {
    let mut shapes = vec![vec![2, 3, 2], vec![2, 3, 2], vec![3, 3, 3, 3]];
    let mut orders = vec![vec![-1, 1, 2], vec![2, 3, -2], vec![1, 3, -3, -4]];
    assert_eq!(largest_label(&orders), 3);
    prepare_contraction_data(&mut shapes, &mut orders);
    assert_eq!(
        shapes,
        vec![vec![2, 3, 2, 1], vec![2, 3, 2, 1], vec![3, 3, 3, 3, 1, 1]]
    );
    assert_eq!(
        orders,
        vec![vec![-1, 1, 2, 4], vec![2, 3, -2, 5], vec![1, 3, -3, -4, 4, 5]]
    );
}

#[test]
fn prepare_contraction_data_counts_up_from_the_largest_label() {
    let mut shapes = vec![vec![4], vec![4]];
    let mut orders = vec![vec![-7], vec![-9]];
    assert_eq!(largest_label(&orders), -7);
    prepare_contraction_data(&mut shapes, &mut orders);
    assert_eq!(shapes, vec![vec![4, 1], vec![4, 1]]);
    assert_eq!(orders, vec![vec![-7, -6], vec![-9, -6]]);

    let mut shapes: Vec<Vec<usize>> = vec![vec![], vec![]];
    let mut orders: Vec<Vec<i32>> = vec![vec![], vec![]];
    assert_eq!(largest_label(&orders), 0);
    prepare_contraction_data(&mut shapes, &mut orders);
    assert_eq!(shapes, vec![vec![1], vec![1]]);
    assert_eq!(orders, vec![vec![1], vec![1]]);
}

#[test]
fn prepare_contraction_data_leaves_one_array_alone() {
    let mut shapes = vec![vec![2, 2]];
    let mut orders = vec![vec![1, 1]];
    prepare_contraction_data(&mut shapes, &mut orders);
    assert_eq!(shapes, vec![vec![2, 2]]);
    assert_eq!(orders, vec![vec![1, 1]]);
}

#[test]
fn contract_map_of_three_arrays() {
    let shapes = vec![vec![2, 3, 2], vec![2, 3, 2], vec![3, 3, 3, 3]];
    let orders = vec![vec![-1, 1, 2], vec![2, 3, -2], vec![1, 3, -3, -4]];
    let plan = contract_map(&shapes, &orders);
    assert_eq!(plan, vec![vec![0, 1], vec![0, 1]]);
}

#[test]
fn contract_map_gives_the_same_plan_twice() {
    let shapes = vec![vec![2, 3], vec![3, 4], vec![4, 2], vec![2, 5], vec![5, 2]];
    let orders = vec![vec![-1, 1], vec![1, 2], vec![2, 3], vec![3, 4], vec![4, -2]];
    let first = contract_map(&shapes, &orders);
    let second = contract_map(&shapes, &orders);
    assert_eq!(first, second);
    assert_eq!(first.len(), 4);
    let mut left = shapes.len();
    for pair in first.iter() {
        assert_eq!(pair.len(), 2);
        assert!(pair[0] < left && pair[1] < left && pair[0] != pair[1]);
        left -= 1;
    }
}

#[test]
fn contract_map_prefers_the_cheapest_pair() {
    // Arrays 1 and 2 share an axis of size 8 and are small; array 0 is large.
    let shapes = vec![vec![9, 9, 2], vec![2, 8], vec![8, 3]];
    let orders = vec![vec![-1, -2, 1], vec![1, 2], vec![2, -3]];
    let plan = contract_map(&shapes, &orders);
    // Scores, each times the element counts of the other arrays (with the
    // extra axes of size one): (0,1) shares 2, times 24; (0,2) shares the
    // extra axis, 1 times 16; (1,2) shares 8 and the extra axis, 9 times 162.
    assert_eq!(plan[0], vec![1, 2]);
    assert_eq!(plan, vec![vec![1, 2], vec![0, 1]]);
}

#[test]
fn contract_map_of_one_array_is_empty() {
    let plan = contract_map(&[vec![2, 2]], &[vec![1, 1]]);
    assert!(plan.is_empty());
    let none: Vec<Vec<usize>> = Vec::new();
    let no_labels: Vec<Vec<i32>> = Vec::new();
    assert!(contract_map(&none, &no_labels).is_empty());
}

#[test]
fn plan_contraction_pairs_arrays_that_share_nothing() {
    let plan = plan_contraction(vec![vec![2], vec![3], vec![4]], vec![vec![-1], vec![-2], vec![-3]]);
    assert_eq!(plan, vec![vec![0, 1], vec![0, 1]]);
}

#[test]
fn order_to_index_pairs_the_shared_labels() {
    let orders = vec![vec![-1, 1, 2, 4], vec![2, 3, -2, 5], vec![1, 3, -3, -4, 4, 5]];
    assert_eq!(order_to_index(&orders, &[0, 1]), vec![2, 0]);
    assert_eq!(order_to_index(&orders, &[1, 0]), vec![0, 2]);
    assert_eq!(order_to_index(&orders, &[0, 2]), vec![1, 3, 0, 4]);
    assert_eq!(order_to_index(&orders, &[2, 1]), vec![1, 5, 1, 3]);
    assert_eq!(order_to_index(&[vec![1, 2], vec![3]], &[0, 1]), Vec::<usize>::new());
}

#[test]
fn order_reformat_drops_the_shared_labels() {
    let mut orders = vec![vec![-1, 1, 2, 4], vec![2, 3, -2, 5], vec![1, 3, -3, -4, 4, 5]];
    order_reformat(&mut orders, &[0, 1]);
    assert_eq!(
        orders,
        vec![vec![-1, 1, 4, 3, -2, 5], vec![1, 3, -3, -4, 4, 5]]
    );
    order_reformat(&mut orders, &[1, 0]);
    assert_eq!(orders, vec![vec![-3, -4, -1, -2]]);
}

#[test]
fn order_reformat_drops_every_repeated_label() {
    let mut orders = vec![vec![7, 8, 7], vec![9], vec![8, 5]];
    order_reformat(&mut orders, &[2, 0]);
    assert_eq!(orders, vec![vec![9], vec![5]]);
}

#[test]
fn shape_reformat_drops_the_shared_axes() {
    let orders = vec![vec![-1, 1, 2, 4], vec![2, 3, -2, 5], vec![1, 3, -3, -4, 4, 5]];
    let mut shapes = vec![vec![2, 3, 2, 1], vec![2, 3, 2, 1], vec![3, 3, 3, 3, 1, 1]];
    shape_reformat(&mut shapes, &orders, &[0, 1]);
    assert_eq!(shapes, vec![vec![2, 3, 1, 3, 2, 1], vec![3, 3, 3, 3, 1, 1]]);

    let mut shapes = vec![vec![2, 3, 2, 1], vec![2, 3, 2, 1], vec![3, 3, 3, 3, 1, 1]];
    shape_reformat(&mut shapes, &orders, &[2, 0]);
    assert_eq!(shapes, vec![vec![2, 3, 2, 1], vec![3, 3, 3, 1, 2, 2]]);
}

#[test]
fn order_splice_keeps_step_with_shape_reformat() {
    let mut orders = vec![vec![-1, 1, 2, 4], vec![2, 3, -2, 5], vec![1, 3, -3, -4, 4, 5]];
    order_splice(&mut orders, &[2, 0]);
    assert_eq!(orders, vec![vec![2, 3, -2, 5], vec![3, -3, -4, 5, -1, 2]]);

    // A label that one array carries twice stays, with both its axes.
    let mut orders = vec![vec![7, 8, 7], vec![8, 5]];
    let mut shapes = vec![vec![2, 3, 2], vec![3, 4]];
    shape_reformat(&mut shapes, &orders, &[0, 1]);
    order_splice(&mut orders, &[0, 1]);
    assert_eq!(orders, vec![vec![7, 7, 5]]);
    assert_eq!(shapes, vec![vec![2, 2, 4]]);
}

#[test]
fn trace_check_traces_every_repeated_label() {
    let mut shape = vec![2, 3, 2, 5, 3];
    let mut order = vec![4, 6, 4, -1, 6];
    let traces = trace_check(&mut shape, &mut order).expect("traces");
    assert_eq!(traces, vec![vec![0, 2], vec![0, 2]]);
    assert_eq!(shape, vec![5]);
    assert_eq!(order, vec![-1]);
}

#[test]
fn trace_check_leaves_distinct_labels_alone() {
    let mut shape = vec![2, 3];
    let mut order = vec![1, -1];
    let traces = trace_check(&mut shape, &mut order).expect("traces");
    assert!(traces.is_empty());
    assert_eq!(shape, vec![2, 3]);
    assert_eq!(order, vec![1, -1]);
}

#[test]
fn trace_check_changes_nothing_when_sizes_differ() {
    let mut shape = vec![2, 2, 3, 4];
    let mut order = vec![1, 1, 2, 2];
    let outcome = trace_check(&mut shape, &mut order);
    assert_eq!(
        outcome.err(),
        Some(ContractionError::ShapeMismatch {
            traced: true,
            left_axis: 0,
            left_size: 3,
            right_axis: 1,
            right_size: 4
        })
    );
    assert_eq!(shape, vec![2, 2, 3, 4]);
    assert_eq!(order, vec![1, 1, 2, 2]);
}

#[test]
fn final_order_sorts_by_label_largest_first() {
    assert_eq!(final_order(&vec![-3, -1, -4, -2]), vec![1, 3, 0, 2]);
    assert_eq!(final_order(&vec![5, -1, 0]), vec![0, 2, 1]);
    assert_eq!(final_order(&vec![]), Vec::<usize>::new());
    assert_eq!(final_order(&vec![2, 7, 2, 7]), vec![1, 3, 0, 2]);
}

#[test]
fn can_contract_asks_for_one_label_per_axis() {
    let shapes = vec![vec![2, 3], vec![3]];
    assert!(can_contract(&shapes, &[vec![-1, 1], vec![1]]));
    assert!(is_aligned(&shapes, &[vec![-1, 1], vec![1]]));
    assert!(!can_contract(&shapes, &[vec![-1, 1], vec![1, 2]]));
    assert!(!is_aligned(&shapes, &[vec![-1, 1], vec![1, 2]]));
    assert!(!can_contract(&shapes, &[vec![-1, 1]]));
    assert!(!is_aligned(&shapes, &[vec![-1, 1]]));
    let none: Vec<Vec<usize>> = Vec::new();
    let no_labels: Vec<Vec<i32>> = Vec::new();
    assert!(is_aligned(&none, &no_labels));
    assert!(!can_contract(&none, &no_labels));
}

#[test]
fn can_contract_asks_for_room_for_new_labels() {
    let shapes = vec![vec![2], vec![2], vec![2]];
    let roomy = vec![vec![i32::MAX - 2], vec![-1], vec![i32::MAX - 2]];
    assert!(has_room_for_labels(&roomy));
    assert!(can_contract(&shapes, &roomy));
    let contraction = contract(shapes.clone(), roomy).expect("a contraction");
    assert_eq!(
        contraction.shapes,
        vec![vec![2, 1], vec![2, 1], vec![2, 1, 1]]
    );
    assert_eq!(contraction.labels, vec![-1]);

    let tight = vec![vec![i32::MAX - 1], vec![-1], vec![i32::MAX - 1]];
    assert!(!has_room_for_labels(&tight));
    assert!(!can_contract(&shapes, &tight));
    // One array gets no new label, so any label has room.
    assert!(has_room_for_labels(&[vec![i32::MAX, i32::MAX]]));
}

#[test]
fn copy_lists_copies() {
    let lists = vec![vec![1, 2], vec![], vec![3]];
    assert_eq!(copy_lists(&lists), lists);
}

#[test]
fn contract_keeps_the_labels_that_occur_once() {
    // Label 0 occurs three times: one of its axes is left.
    let contraction = contract(
        vec![vec![2, 4], vec![2, 5], vec![2, 4]],
        vec![vec![0, 3], vec![0, -7], vec![0, 3]],
    )
    .expect("a contraction");
    assert_eq!(contraction.labels, vec![0, -7]);
    assert_eq!(contraction.shape, vec![2, 5]);
}

#[test]
fn contract_follows_the_plan() {
    let shapes = vec![vec![2, 3], vec![3, 4], vec![4, 2], vec![2, 5], vec![5, 2]];
    let orders = vec![vec![-1, 1], vec![1, 2], vec![2, 3], vec![3, 4], vec![4, -2]];
    let plan = contract_map(&shapes, &orders);
    let contraction = contract(shapes, orders).expect("a contraction");
    let pairs: Vec<Vec<usize>> = contraction.steps.iter().map(|step| step.pair.clone()).collect();
    assert_eq!(pairs, plan);
    assert_eq!(contraction.labels, vec![-1, -2]);
    assert_eq!(contraction.shape, vec![2, 2]);
}
