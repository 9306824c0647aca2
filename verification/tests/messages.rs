use quicklines::error::{append_decimal, SampleError};

#[test]
fn messages_of_the_plain_failures() {
    assert_eq!(SampleError::NoNewlines.message(), "file has no newlines");
    assert_eq!(SampleError::Internal.message(), "internal error");
}

#[test]
fn message_of_an_exhausted_run() {
    let error = SampleError::Exhausted { requested: 6, found: 5 };
    assert_eq!(
        error.message(),
        "cannot sample 6 unique lines from file with only 5 lines"
    );
    let error = SampleError::Exhausted { requested: 1200, found: 0 };
    assert_eq!(
        error.message(),
        "cannot sample 1200 unique lines from file with only 0 lines"
    );
}

#[test]
fn decimal_digits_are_appended() {
    let mut text = String::from("n=");
    append_decimal(&mut text, 0);
    assert_eq!(text, "n=0");
    append_decimal(&mut text, 9);
    append_decimal(&mut text, 10);
    append_decimal(&mut text, 407);
    assert_eq!(text, "n=0910407");
    let mut text = String::new();
    append_decimal(&mut text, usize::MAX);
    assert_eq!(text, usize::MAX.to_string());
}
