use qua_ten_net::natural::Natural;
use qua_ten_net::planner::{ratio_matrix, select_best_nodes};

fn number(value: usize) -> Natural {
    Natural::from_usize(value)
}

fn assert_is(actual: &Natural, expected: usize) {
    assert!(
        actual.equals(&number(expected)),
        "a score is not {}",
        expected
    );
}

#[test]
fn ratio_matrix_scores_every_pair() {
    let shapes = vec![vec![2, 3, 2, 1], vec![2, 3, 2, 1], vec![3, 3, 3, 3, 1, 1]];
    let orders = vec![vec![-1, 1, 2, 4], vec![2, 3, -2, 5], vec![1, 3, -3, -4, 4, 5]];
    let (matrix, sums) = ratio_matrix(&shapes, &orders);
    // Shared sizes 2, 3 + 1 and 3 + 1, each times the element count of the
    // array that is not part of the pair: 81, 12 and 12.
    let expected = [[0, 162, 48], [162, 0, 48], [48, 48, 0]];
    assert_eq!(matrix.len(), 3);
    for i in 0..3 {
        assert_eq!(matrix[i].len(), 3);
        for j in 0..3 {
            assert_is(&matrix[i][j], expected[i][j]);
        }
    }
    assert_eq!(sums.len(), 3);
    assert_is(&sums[0], 210);
    assert_is(&sums[1], 210);
    assert_is(&sums[2], 0);
    assert_eq!(select_best_nodes(&matrix, &sums), vec![0, 1]);
}

#[test]
fn ratio_matrix_counts_a_repeated_label_once() {
    let shapes = vec![vec![5, 7, 5], vec![5, 2]];
    let orders = vec![vec![1, 2, 1], vec![1, -1]];
    let (matrix, sums) = ratio_matrix(&shapes, &orders);
    assert_is(&matrix[0][1], 5);
    assert_is(&matrix[1][0], 5);
    assert_is(&sums[0], 5);
    assert_is(&sums[1], 5);
}

#[test]
fn ratio_matrix_takes_sizes_from_the_first_array() {
    let shapes = vec![vec![3], vec![4]];
    let orders = vec![vec![1], vec![1]];
    let (matrix, _) = ratio_matrix(&shapes, &orders);
    assert_is(&matrix[0][1], 3);
    assert_is(&matrix[1][0], 3);
}

#[test]
fn ratio_matrix_holds_numbers_beyond_machine_size() {
    let huge = usize::MAX;
    let shapes = vec![vec![2], vec![2], vec![huge, huge], vec![huge]];
    let orders = vec![vec![1], vec![1], vec![-1, -2], vec![-3]];
    let (matrix, sums) = ratio_matrix(&shapes, &orders);
    let expected = number(2).times(huge).times(huge).times(huge);
    assert!(matrix[0][1].equals(&expected));
    assert!(matrix[0][1].exceeds(&number(huge).times(huge)));
    assert_is(&matrix[2][3], 0);
    assert!(sums[0].equals(&expected));
    assert_is(&sums[2], 0);
    assert_eq!(select_best_nodes(&matrix, &sums), vec![0, 1]);
}

#[test]
fn select_best_nodes_takes_the_first_of_equals() {
    let matrix = vec![
        vec![number(0), number(4), number(4)],
        vec![number(4), number(0), number(4)],
        vec![number(4), number(4), number(0)],
    ];
    let sums = vec![number(8), number(8), number(8)];
    assert_eq!(select_best_nodes(&matrix, &sums), vec![0, 1]);
}

#[test]
fn select_best_nodes_follows_the_largest_row_sum() {
    let matrix = vec![
        vec![number(0), number(1), number(9)],
        vec![number(1), number(0), number(2)],
        vec![number(9), number(2), number(0)],
    ];
    let sums = vec![number(10), number(0), number(11)];
    assert_eq!(select_best_nodes(&matrix, &sums), vec![2, 0]);
}

#[test]
fn select_best_nodes_never_pairs_an_array_with_itself() {
    let matrix = vec![vec![number(0), number(0)], vec![number(0), number(0)]];
    let sums = vec![number(0), number(0)];
    assert_eq!(select_best_nodes(&matrix, &sums), vec![0, 1]);
}
