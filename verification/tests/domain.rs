use quicklines::domain::last_valid_offset;
use quicklines::error::SampleError;
use quicklines::lines::maybe_extract_line;

#[test]
fn last_valid_offset_is_the_start_of_the_last_terminated_line() {
    assert_eq!(last_valid_offset(b"first\nsecond\n"), Ok(6));
    assert_eq!(last_valid_offset(b"first\nsecond\nthird\n"), Ok(13));
    assert_eq!(last_valid_offset(b"\n\n"), Ok(1));
}

#[test]
fn last_valid_offset_leaves_out_an_unterminated_tail() {
    assert_eq!(last_valid_offset(b"first\nsecond\nthi"), Ok(6));
    assert_eq!(last_valid_offset(b"a\nb\nc"), Ok(2));
}

#[test]
fn last_valid_offset_refuses_data_without_newlines() {
    assert_eq!(last_valid_offset(b""), Err(SampleError::NoNewlines));
    assert_eq!(last_valid_offset(b"no newline here"), Err(SampleError::NoNewlines));
}

#[test]
fn last_valid_offset_refuses_a_single_line() {
    assert_eq!(last_valid_offset(b"a single line\n"), Err(SampleError::NoNewlines));
    assert_eq!(last_valid_offset(b"one\ntwo"), Err(SampleError::NoNewlines));
    assert_eq!(last_valid_offset(b"\n"), Err(SampleError::NoNewlines));
}

#[test]
fn probes_resolve_exactly_up_to_the_last_valid_offset() {
    let data = b"ab\n\ncdef\ng\nrest";
    let last = last_valid_offset(data).unwrap();
    assert_eq!(last, 9);
    for offset in 0..=data.len() {
        assert_eq!(maybe_extract_line(data, offset).is_some(), offset <= last);
    }
}
