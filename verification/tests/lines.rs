use quicklines::lines::{find_newline, maybe_extract_line};

#[test]
fn find_newline_returns_correct_index() {
    let data = "newline\nand something else";
    assert_eq!(find_newline(data.as_bytes(), 0), Some(7));
}

#[test]
fn find_newline_returns_none_when_not_found() {
    let data = "no newline here";
    assert_eq!(find_newline(data.as_bytes(), 0), None);
}

#[test]
fn maybe_extract_line_starts_at_zero() {
    let data = "a single line\n";
    assert_eq!(
        maybe_extract_line(data.as_bytes(), 0),
        Some((0, data.len()))
    );
}

#[test]
fn maybe_extract_line_starts_at_offset() {
    let data = "first\nsecond\n";
    assert_eq!(
        maybe_extract_line(data.as_bytes(), 6),
        Some((6, data.len()))
    );
}

#[test]
fn maybe_extract_line_happy_case() {
    let data = "first line\nsecond line\n";
    assert_eq!(
        maybe_extract_line(data.as_bytes(), 5),
        Some((11, data.len()))
    );
}

#[test]
fn find_newline_searches_from_the_offset() {
    let data = "one\ntwo\nthree";
    assert_eq!(find_newline(data.as_bytes(), 3), Some(3));
    assert_eq!(find_newline(data.as_bytes(), 4), Some(7));
    assert_eq!(find_newline(data.as_bytes(), 8), None);
    assert_eq!(find_newline(data.as_bytes(), data.len()), None);
}

#[test]
fn maybe_extract_line_snaps_forward_inside_a_line() {
    let data = "first\nsecond\nthird\n";
    assert_eq!(maybe_extract_line(data.as_bytes(), 1), Some((6, 13)));
    assert_eq!(maybe_extract_line(data.as_bytes(), 5), Some((6, 13)));
    assert_eq!(maybe_extract_line(data.as_bytes(), 7), Some((13, 19)));
}

#[test]
fn maybe_extract_line_keeps_a_probe_at_a_line_start() {
    let data = "first\nsecond\nthird\n";
    assert_eq!(maybe_extract_line(data.as_bytes(), 6), Some((6, 13)));
    assert_eq!(maybe_extract_line(data.as_bytes(), 13), Some((13, 19)));
}

#[test]
fn maybe_extract_line_finds_nothing_in_the_last_line() {
    let data = "first\nsecond\n";
    assert_eq!(maybe_extract_line(data.as_bytes(), 7), None);
    assert_eq!(maybe_extract_line(data.as_bytes(), 12), None);
    assert_eq!(maybe_extract_line(data.as_bytes(), data.len()), None);
}

#[test]
fn maybe_extract_line_skips_an_unterminated_tail() {
    let data = "first\nsecond";
    assert_eq!(maybe_extract_line(data.as_bytes(), 0), Some((0, 6)));
    assert_eq!(maybe_extract_line(data.as_bytes(), 1), None);
    assert_eq!(maybe_extract_line(data.as_bytes(), 6), None);
}

#[test]
fn maybe_extract_line_takes_offset_zero_as_a_line_start() {
    let data = "\nabc\n";
    assert_eq!(maybe_extract_line(data.as_bytes(), 0), Some((0, 1)));
    assert_eq!(maybe_extract_line(data.as_bytes(), 1), Some((1, 5)));
}

#[test]
fn maybe_extract_line_without_any_newline() {
    let data = "no newline here";
    assert_eq!(maybe_extract_line(data.as_bytes(), 0), None);
    assert_eq!(maybe_extract_line(data.as_bytes(), 3), None);
    assert_eq!(maybe_extract_line(b"", 0), None);
}

#[test]
fn located_lines_hold_one_newline_at_their_end() {
    let data = b"ab\n\ncdef\ng\nrest";
    for offset in 0..data.len() {
        if let Some((begin, end)) = maybe_extract_line(data, offset) {
            assert!(offset <= begin && begin < end && end <= data.len());
            assert_eq!(data[end - 1], b'\n');
            assert!(data[begin..end - 1].iter().all(|byte| *byte != b'\n'));
            assert!(begin == 0 || data[begin - 1] == b'\n');
        }
    }
}
