use qua_ten_net::error::ContractionError;

#[test]
fn messages_spell_out_the_numbers() {
    let error = ContractionError::ShapeMismatch {
        traced: false,
        left_axis: 10,
        left_size: 305,
        right_axis: 0,
        right_size: 1_000_000,
    };
    assert_eq!(
        error.message(),
        "Shape mismatch along specified axes: a[10] = 305, b[0] = 1000000"
    );
    let error = ContractionError::ShapeMismatch {
        traced: true,
        left_axis: 2,
        left_size: 9,
        right_axis: 7,
        right_size: 90,
    };
    assert_eq!(
        error.message(),
        "Shape mismatch along specified axes: tenosr[2] = 9, tensor[7] = 90"
    );
    assert_eq!(
        ContractionError::InvalidAxisCount { count: usize::MAX }.message(),
        format!(
            "Trace calculation need two axes index. (Axes length is {}!)",
            usize::MAX
        )
    );
    assert_eq!(
        ContractionError::OddAxisList { len: 5 }.message(),
        "Axis length is not even number!"
    );
}

#[test]
fn messages_spell_out_negative_labels() {
    assert_eq!(
        ContractionError::InvalidLabelCount { label: i32::MIN }.message(),
        "Index -2147483648 must appear at most once in contraction order list."
    );
    assert_eq!(
        ContractionError::InvalidLabelCount { label: i32::MAX }.message(),
        "Index 2147483647 must appear exactly twice in contraction order list."
    );
    assert_eq!(
        ContractionError::InvalidLabelCount { label: 0 }.message(),
        "Index 0 must appear at most once in contraction order list."
    );
}
