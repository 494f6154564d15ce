use ndarray::{Array, Array2, ArrayBase, ArrayD, Data, Ix2, IxDyn};
use qua_ten_net::error::ContractionError;
use qua_ten_net::tendot::{can_dot, tensor_dot, DotPlan};

// The product of two matrices, element by element.
fn matmul<S, T>(left: &ArrayBase<S, Ix2>, right: &ArrayBase<T, Ix2>) -> Array2<f64>
where
    S: Data<Elem = f64>,
    T: Data<Elem = f64>,
{
    let (rows, inner) = left.dim();
    let (_, cols) = right.dim();
    let mut product = Array2::<f64>::zeros((rows, cols));
    for r in 0..rows {
        for c in 0..cols {
            let mut sum = 0.0;
            for k in 0..inner {
                sum += left[[r, k]] * right[[k, c]];
            }
            product[[r, c]] = sum;
        }
    }
    product
}

fn run_dot(a: &ArrayD<f64>, b: &ArrayD<f64>, plan: &DotPlan) -> ArrayD<f64> {
    let rows = plan.rows.expect("rows fit");
    let inner = plan.inner.expect("inner fits");
    let cols = plan.cols.expect("cols fit");
    let left = a.view().permuted_axes(IxDyn(&plan.left_axes));
    let left = left.to_shape((rows, inner)).expect("ShapeError!");
    let right = b.view().permuted_axes(IxDyn(&plan.right_axes));
    let right = right.to_shape((inner, cols)).expect("ShapeError!");
    matmul(&left, &right)
        .into_dyn()
        .to_shape(plan.shape.clone())
        .expect("ShapeError!")
        .into_owned()
}

fn operands() -> (ArrayD<f64>, ArrayD<f64>) {
    let vec_a: Vec<f64> = (0..6).map(|x| x as f64).collect();
    let a = Array::from_shape_vec(vec![2, 3], vec_a).expect("ShapeError!");
    let vec_b: Vec<f64> = (0..12).map(|x| x as f64).collect();
    let b = Array::from_shape_vec(vec![3, 2, 2], vec_b).expect("ShapeError!");
    (a, b)
}

#[test]
fn test_tensor_dot() {
    let (a, b) = operands();

    let dot = tensor_dot(&a.shape().to_vec(), &b.shape().to_vec(), vec![1, 0]);

    match dot {
        Ok(plan) => {
            let result = run_dot(&a, &b, &plan);
            let rslt = Array::from_shape_vec(
                vec![2, 2, 2],
                vec![20.0, 23.0, 26.0, 29.0, 56.0, 68.0, 80.0, 92.0],
            )
            .expect("ShapeError!");
            assert_eq!(result, rslt);
        }
        Err(err) => {
            panic!("{}", err.message());
        }
    }
}

#[test]
fn test_tensor_dot_fail_axis_length() {
    let (a, b) = operands();

    let dot = tensor_dot(&a.shape().to_vec(), &b.shape().to_vec(), vec![1, 0, 3]);

    match dot {
        Ok(_) => panic!("an odd list of axes was accepted"),
        Err(err) => {
            assert_eq!(err, ContractionError::OddAxisList { len: 3 });
            assert_eq!("Axis length is not even number!", err.message());
        }
    }
}

#[test]
fn test_tensor_dot_fail_index() {
    let (a, b) = operands();

    let dot = tensor_dot(&a.shape().to_vec(), &b.shape().to_vec(), vec![1, 1]);

    match dot {
        Ok(_) => panic!("axes of different sizes were accepted"),
        Err(err) => {
            assert_eq!(
                err,
                ContractionError::ShapeMismatch {
                    traced: false,
                    left_axis: 1,
                    left_size: 3,
                    right_axis: 1,
                    right_size: 2
                }
            );
            assert_eq!(
                "Shape mismatch along specified axes: a[1] = 3, b[1] = 2",
                err.message()
            );
        }
    }
}

#[test]
fn tensor_dot_plan_of_the_matrix_product() {
    let plan = tensor_dot(&vec![2, 3], &vec![3, 2, 2], vec![1, 0]).expect("a plan");
    assert_eq!(plan.left_axes, vec![0, 1]);
    assert_eq!(plan.right_axes, vec![0, 1, 2]);
    assert_eq!(plan.rows, Some(2));
    assert_eq!(plan.inner, Some(3));
    assert_eq!(plan.cols, Some(4));
    assert_eq!(plan.shape, vec![2, 2, 2]);
}

#[test]
fn tensor_dot_moves_contracted_axes_together() {
    // a: [4, 5, 6], b: [6, 7, 4]; a's axes 2 and 0 meet b's axes 0 and 2.
    let plan = tensor_dot(&vec![4, 5, 6], &vec![6, 7, 4], vec![2, 0, 0, 2]).expect("a plan");
    assert_eq!(plan.left_axes, vec![1, 2, 0]);
    assert_eq!(plan.right_axes, vec![0, 2, 1]);
    assert_eq!(plan.rows, Some(5));
    assert_eq!(plan.inner, Some(24));
    assert_eq!(plan.cols, Some(7));
    assert_eq!(plan.shape, vec![5, 7]);
}

#[test]
fn tensor_dot_reports_the_first_mismatch() {
    let outcome = tensor_dot(&vec![4, 5, 6], &vec![6, 7, 3], vec![2, 0, 1, 2]);
    assert_eq!(
        outcome.err(),
        Some(ContractionError::ShapeMismatch {
                    traced: false,
            left_axis: 2,
            left_size: 6,
            right_axis: 1,
            right_size: 7
        })
    );
}

#[test]
fn tensor_dot_without_axes_is_the_outer_product() {
    let plan = tensor_dot(&vec![2, 3], &vec![4], vec![]).expect("a plan");
    assert_eq!(plan.left_axes, vec![0, 1]);
    assert_eq!(plan.right_axes, vec![0]);
    assert_eq!(plan.rows, Some(6));
    assert_eq!(plan.inner, Some(1));
    assert_eq!(plan.cols, Some(4));
    assert_eq!(plan.shape, vec![2, 3, 4]);

    let a = Array::from_shape_vec(vec![2, 3], (1..7).map(|x| x as f64).collect())
        .expect("ShapeError!");
    let b = Array::from_shape_vec(vec![4], vec![1.0, 10.0, 100.0, 1000.0]).expect("ShapeError!");
    let outer = run_dot(&a, &b, &plan);
    assert_eq!(outer.len(), a.len() * b.len());
    assert_eq!(outer[[1, 2, 3]], 6000.0);
    assert_eq!(outer[[0, 1, 1]], 20.0);
}

#[test]
fn tensor_dot_counts_that_do_not_fit() {
    let huge = usize::MAX;
    let plan = tensor_dot(&vec![huge, 2, 3], &vec![3, 0, huge, huge], vec![2, 0]).expect("a plan");
    assert_eq!(plan.rows, None);
    assert_eq!(plan.inner, Some(3));
    assert_eq!(plan.cols, Some(0));
    assert_eq!(plan.shape, vec![huge, 2, 0, huge, huge]);
}

#[test]
fn can_dot_asks_for_axes_of_each_array() {
    assert!(can_dot(&vec![2, 3], &vec![3, 2, 2], &vec![1, 0]));
    assert!(can_dot(&vec![2, 3], &vec![3, 2, 2], &vec![1, 2]));
    assert!(!can_dot(&vec![2, 3], &vec![3, 2, 2], &vec![2, 0]));
    assert!(!can_dot(&vec![2, 3], &vec![3, 2, 2], &vec![1, 3]));
    // An odd list is refused by the contraction itself.
    assert!(can_dot(&vec![2, 3], &vec![3, 2, 2], &vec![1, 0, 3]));
    assert!(can_dot(&vec![], &vec![], &vec![]));
}
