use ndarray::{Array, ArrayD, Axis, IxDyn};
use qua_ten_net::error::ContractionError;
use qua_ten_net::trace::{can_trace, trace, TracePlan};

fn run_trace(tensor: &ArrayD<f64>, plan: &TracePlan) -> ArrayD<f64> {
    let rest = plan.rest.expect("rest fits");
    let moved = tensor
        .view()
        .permuted_axes(IxDyn(&plan.axes))
        .to_shape(vec![plan.extent, plan.extent, rest])
        .expect("ShapeError!")
        .into_owned();
    let mut sum = ArrayD::<f64>::zeros(IxDyn(&[rest]));
    for i in 0..plan.extent {
        let plane = moved.index_axis(Axis(0), i);
        let line = plane.index_axis(Axis(0), i);
        sum = &sum + &line;
    }
    sum.to_shape(plan.shape.clone())
        .expect("ShapeError!")
        .into_owned()
}

#[test]
fn test_trace() {
    let vec_a: Vec<f64> = (0..16).map(|x| x as f64).collect();
    let a = Array::from_shape_vec(vec![2, 2, 2, 2], vec_a).expect("ShapeError!");

    let trc = trace(&a.shape().to_vec(), vec![1, 3]);

    match trc {
        Ok(plan) => {
            let result = run_trace(&a, &plan);
            let rslt =
                Array::from_shape_vec(vec![2, 2], vec![5.0, 9.0, 21.0, 25.0]).expect("ShapeError!");
            assert_eq!(result, rslt);
        }
        Err(err) => {
            panic!("Error: {}", err.message());
        }
    }
}

#[test]
fn test_trace_fail_axes_len() {
    let vec_a: Vec<f64> = (0..16).map(|x| x as f64).collect();
    let a = Array::from_shape_vec(vec![2, 2, 2, 2], vec_a).expect("ShapeError!");

    let trc = trace(&a.shape().to_vec(), vec![1, 3, 2]);

    match trc {
        Ok(_) => panic!("three axes were accepted"),
        Err(err) => {
            assert_eq!(err, ContractionError::InvalidAxisCount { count: 3 });
            assert_eq!(
                "Trace calculation need two axes index. (Axes length is 3!)",
                err.message()
            );
        }
    }
}

#[test]
fn test_trace_fail_axes_dim() {
    let vec_a: Vec<f64> = (0..24).map(|x| x as f64).collect();
    let a = Array::from_shape_vec(vec![2, 3, 2, 2], vec_a).expect("ShapeError!");

    let trc = trace(&a.shape().to_vec(), vec![1, 3]);

    match trc {
        Ok(_) => panic!("axes of different sizes were accepted"),
        Err(err) => {
            assert_eq!(
                err,
                ContractionError::ShapeMismatch {
                    traced: true,
                    left_axis: 1,
                    left_size: 3,
                    right_axis: 3,
                    right_size: 2
                }
            );
            assert_eq!(
                "Shape mismatch along specified axes: tenosr[1] = 3, tensor[3] = 2",
                err.message()
            );
        }
    }
}

#[test]
fn trace_plan_brings_the_traced_axes_to_the_front() {
    let plan = trace(&vec![2, 5, 7, 5], vec![3, 1]).expect("a plan");
    assert_eq!(plan.axes, vec![3, 1, 0, 2]);
    assert_eq!(plan.extent, 5);
    assert_eq!(plan.rest, Some(14));
    assert_eq!(plan.shape, vec![2, 7]);
}

#[test]
fn trace_of_a_matrix_is_a_number() {
    let plan = trace(&vec![3, 3], vec![0, 1]).expect("a plan");
    assert_eq!(plan.axes, vec![0, 1]);
    assert_eq!(plan.extent, 3);
    assert_eq!(plan.rest, Some(1));
    assert_eq!(plan.shape, Vec::<usize>::new());

    let matrix = Array::from_shape_vec(vec![3, 3], (0..9).map(|x| x as f64).collect())
        .expect("ShapeError!");
    let sum = run_trace(&matrix, &plan);
    assert_eq!(sum.ndim(), 0);
    assert_eq!(sum.sum(), 12.0);
}

#[test]
fn trace_without_axes_is_refused() {
    assert_eq!(
        trace(&vec![2, 2], vec![]).err(),
        Some(ContractionError::InvalidAxisCount { count: 0 })
    );
    assert_eq!(
        trace(&vec![2, 2], vec![1]).err(),
        Some(ContractionError::InvalidAxisCount { count: 1 })
    );
}

#[test]
fn can_trace_asks_for_axes_of_the_array() {
    assert!(can_trace(&vec![2, 2, 2], &vec![0, 2]));
    assert!(!can_trace(&vec![2, 2, 2], &vec![0, 3]));
    assert!(!can_trace(&vec![2, 2, 2], &vec![3, 0]));
    // Anything but two axes is refused by the trace itself.
    assert!(can_trace(&vec![2, 2, 2], &vec![7]));
    assert!(can_trace(&vec![2, 2, 2], &vec![7, 8, 9]));
}
