//! What can be wrong with a contraction, and how it is put into words.

use vstd::prelude::*;

verus! {

/// Why a contraction was refused.
#[derive(Debug, Clone, Copy, PartialEq, Eq, Structural)]
pub enum ContractionError {
    /// A label occurs more or less often than its sign allows: a positive
    /// label not exactly twice, or a negative label more than once.
    InvalidLabelCount { label: i32 },
    /// The flat list of axis pairs of a pairwise contraction has odd length.
    OddAxisList { len: usize },
    /// Two axes that are matched with each other differ in size. They are
    /// axes of one array where a trace matched them (`traced`), and otherwise
    /// an axis of the left and an axis of the right array of a contraction.
    ShapeMismatch {
        traced: bool,
        left_axis: usize,
        left_size: usize,
        right_axis: usize,
        right_size: usize,
    },
    /// A trace was asked for over a number of axes other than two.
    InvalidAxisCount { count: usize },
}

/// The character for a digit.
pub open spec fn digit(value: nat) -> char {
    if value == 0 {
        '0'
    } else if value == 1 {
        '1'
    } else if value == 2 {
        '2'
    } else if value == 3 {
        '3'
    } else if value == 4 {
        '4'
    } else if value == 5 {
        '5'
    } else if value == 6 {
        '6'
    } else if value == 7 {
        '7'
    } else if value == 8 {
        '8'
    } else {
        '9'
    }
}

/// A natural number in decimal digits.
pub open spec fn decimal(value: nat) -> Seq<char>
    decreases value,
{
    if value < 10 {
        seq![digit(value)]
    } else {
        decimal(value / 10).push(digit(value % 10))
    }
}

/// An integer in decimal digits, with a minus sign if it is negative.
pub open spec fn signed_decimal(value: int) -> Seq<char> {
    if value < 0 {
        seq!['-'] + decimal((-value) as nat)
    } else {
        decimal(value as nat)
    }
}

/// The words for an error.
pub open spec fn message_text(error: ContractionError) -> Seq<char> {
    match error {
        ContractionError::InvalidLabelCount { label } => {
            if label > 0 {
                "Index "@ + signed_decimal(label as int)
                    + " must appear exactly twice in contraction order list."@
            } else {
                "Index "@ + signed_decimal(label as int)
                    + " must appear at most once in contraction order list."@
            }
        },
        ContractionError::OddAxisList { len } => "Axis length is not even number!"@,
        ContractionError::ShapeMismatch { traced, left_axis, left_size, right_axis, right_size } => {
            if traced {
                "Shape mismatch along specified axes: tenosr["@ + decimal(left_axis as nat)
                    + "] = "@ + decimal(left_size as nat) + ", tensor["@ + decimal(
                    right_axis as nat,
                ) + "] = "@ + decimal(right_size as nat)
            } else {
                "Shape mismatch along specified axes: a["@ + decimal(left_axis as nat) + "] = "@
                    + decimal(left_size as nat) + ", b["@ + decimal(right_axis as nat) + "] = "@
                    + decimal(right_size as nat)
            }
        },
        ContractionError::InvalidAxisCount { count } => {
            "Trace calculation need two axes index. (Axes length is "@ + decimal(count as nat)
                + "!)"@
        },
    }
}

/// The text of one digit.
fn digit_text(value: u64) -> (text: &'static str)
    requires
        value < 10,
    ensures
        text@ == seq![digit(value as nat)],
{
    proof {
        reveal_strlit("0");
        reveal_strlit("1");
        reveal_strlit("2");
        reveal_strlit("3");
        reveal_strlit("4");
        reveal_strlit("5");
        reveal_strlit("6");
        reveal_strlit("7");
        reveal_strlit("8");
        reveal_strlit("9");
    }
    let text = if value == 0 {
        "0"
    } else if value == 1 {
        "1"
    } else if value == 2 {
        "2"
    } else if value == 3 {
        "3"
    } else if value == 4 {
        "4"
    } else if value == 5 {
        "5"
    } else if value == 6 {
        "6"
    } else if value == 7 {
        "7"
    } else if value == 8 {
        "8"
    } else {
        "9"
    };
    assert(text@ =~= seq![digit(value as nat)]);
    text
}

/// Writes a natural number in decimal digits at the end of a text.
fn write_decimal(text: &mut String, value: u64)
    ensures
        final(text)@ == old(text)@ + decimal(value as nat),
    decreases value,
{
    if value < 10 {
        text.append(digit_text(value));
    } else {
        write_decimal(text, value / 10);
        text.append(digit_text(value % 10));
        assert(old(text)@ + decimal((value / 10) as nat) + seq![digit((value % 10) as nat)]
            =~= old(text)@ + decimal((value / 10) as nat).push(digit((value % 10) as nat)));
    }
}

/// Writes an integer in decimal digits at the end of a text.
fn write_signed(text: &mut String, value: i32)
    ensures
        final(text)@ == old(text)@ + signed_decimal(value as int),
{
    if value < 0 {
        proof {
            reveal_strlit("-");
        }
        text.append("-");
        assert("-"@ =~= seq!['-']);
        write_decimal(text, (-(value as i64)) as u64);
        assert(old(text)@ + seq!['-'] + decimal((-value) as nat) =~= old(text)@ + (seq!['-']
            + decimal((-value) as nat)));
    } else {
        write_decimal(text, value as u64);
    }
}

impl ContractionError {
    /// The error in words.
    pub fn message(&self) -> (text: String)
        ensures
            text@ == message_text(*self),
    {
        let mut text = String::new();
        assert(text@ =~= Seq::<char>::empty());
        match *self {
            ContractionError::InvalidLabelCount { label } => {
                text.append("Index ");
                write_signed(&mut text, label);
                if label > 0 {
                    text.append(" must appear exactly twice in contraction order list.");
                } else {
                    text.append(" must appear at most once in contraction order list.");
                }
            },
            ContractionError::OddAxisList { len } => {
                text.append("Axis length is not even number!");
            },
            ContractionError::ShapeMismatch {
                traced,
                left_axis,
                left_size,
                right_axis,
                right_size,
            } => {
                if traced {
                    text.append("Shape mismatch along specified axes: tenosr[");
                } else {
                    text.append("Shape mismatch along specified axes: a[");
                }
                write_decimal(&mut text, left_axis as u64);
                text.append("] = ");
                write_decimal(&mut text, left_size as u64);
                if traced {
                    text.append(", tensor[");
                } else {
                    text.append(", b[");
                }
                write_decimal(&mut text, right_axis as u64);
                text.append("] = ");
                write_decimal(&mut text, right_size as u64);
            },
            ContractionError::InvalidAxisCount { count } => {
                text.append("Trace calculation need two axes index. (Axes length is ");
                write_decimal(&mut text, count as u64);
                text.append("!)");
            },
        }
        assert(text@ =~= message_text(*self));
        text
    }
}

} // verus!
