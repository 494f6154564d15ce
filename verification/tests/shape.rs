use qua_ten_net::labels::{count_label, has_label, keep_unshared, position};
use qua_ten_net::shape::{collect_free_axes, join, copy_of, element_count, gather, has_axis};

#[test]
fn element_count_is_the_product_of_the_sizes() {
    assert_eq!(element_count(&vec![2, 3, 4]), Some(24));
    assert_eq!(element_count(&vec![]), Some(1));
    assert_eq!(element_count(&vec![7]), Some(7));
}

#[test]
fn element_count_knows_its_limits() {
    assert_eq!(element_count(&vec![usize::MAX, 2]), None);
    assert_eq!(element_count(&vec![usize::MAX, 1, 1]), Some(usize::MAX));
    assert_eq!(element_count(&vec![usize::MAX, usize::MAX, 0]), Some(0));
    assert_eq!(element_count(&vec![0, usize::MAX, usize::MAX]), Some(0));
}

#[test]
fn free_axes_are_the_axes_left_out() {
    assert_eq!(collect_free_axes(&vec![3, 1], 5), vec![0, 2, 4]);
    assert_eq!(collect_free_axes(&vec![], 3), vec![0, 1, 2]);
    assert_eq!(collect_free_axes(&vec![0, 1], 2), Vec::<usize>::new());
    assert!(has_axis(&vec![3, 1], 1));
    assert!(!has_axis(&vec![3, 1], 2));
}

#[test]
fn gather_reads_in_the_order_of_the_axes() {
    assert_eq!(gather(&vec![10, 20, 30, 40], &vec![3, 0, 0]), vec![40, 10, 10]);
    assert_eq!(gather(&vec![-1, -2], &vec![1, 0]), vec![-2, -1]);
    assert_eq!(join(&vec![1, 2], &vec![3]), vec![1, 2, 3]);
    assert_eq!(copy_of(&vec![4, 5]), vec![4, 5]);
}

#[test]
fn labels_are_found_and_counted() {
    let order = vec![4, -1, 4, 0];
    assert!(has_label(&order, -1));
    assert!(!has_label(&order, 1));
    assert_eq!(position(&order, 4), 0);
    assert_eq!(position(&order, 0), 3);
    assert_eq!(position(&order, 9), 4);
    assert_eq!(count_label(&order, 4), 2);
    assert_eq!(count_label(&order, 9), 0);
    assert_eq!(
        keep_unshared(&vec![10, 20, 30, 40], &order, &vec![0, -1]),
        vec![10, 30]
    );
}
