use quicklines::error::SampleError;
use quicklines::quicklines;

use std::collections::HashSet;

fn input_uniform_lines() -> Vec<u8> {
    b"line 1\nline 2\nline 3\nline 4\nline 5\n".to_vec()
}

fn lines_of(written: &[u8]) -> Vec<String> {
    String::from_utf8(written.to_vec())
        .unwrap()
        .lines()
        .map(|line| line.to_owned())
        .collect()
}

#[test]
fn sampling_with_replacement_contains_duplicates() {
    // Given an input file
    let input = input_uniform_lines();
    let mut writer = vec![];

    // When we request a subset of lines with a well-chosen seed
    quicklines(&input, 3, true, Some(12), &mut writer).unwrap();

    // Then the total number of lines should be as requested
    let lines = lines_of(&writer);
    assert_eq!(lines.len(), 3);

    // Then the number of unique lines may be lower
    let lines_set: HashSet<_> = lines.into_iter().collect();
    assert_eq!(lines_set.len(), 2);
}

#[test]
fn sampling_with_replacement_allows_oversampling() {
    // Given an input file
    let input = input_uniform_lines();
    let mut writer = vec![];

    // When we request a superset of lines
    quicklines(&input, 100, true, Some(12), &mut writer).unwrap();

    // Then the total number of lines should be as requested
    let lines = lines_of(&writer);
    assert_eq!(lines.len(), 100);

    // Then the number of unique lines is at most the number of lines in the file
    let lines_set: HashSet<_> = lines.into_iter().collect();
    assert_eq!(lines_set.len(), 5);
}

#[test]
fn sampling_without_replacement_does_not_contain_duplicates() {
    // Given an input file
    let input = input_uniform_lines();
    let mut writer = vec![];

    // When we request all of the lines without replacement
    quicklines(&input, 5, false, Some(12), &mut writer).unwrap();

    // Then the total number of lines should be as requested
    let lines = lines_of(&writer);
    assert_eq!(lines.len(), 5);

    // Then the number of unique lines should be equal to the total
    let lines_set: HashSet<_> = lines.iter().collect();
    assert_eq!(lines_set.len(), lines.len());
}

#[test]
fn seeded_sampling_writes_the_lines_drawn() {
    let input = input_uniform_lines();
    let mut writer = vec![];
    assert_eq!(quicklines(&input, 3, true, Some(12), &mut writer), Ok(()));
    assert_eq!(writer, b"line 3\nline 3\nline 2\n".to_vec());

    let mut writer = b"# ".to_vec();
    assert_eq!(quicklines(&input, 5, false, Some(12), &mut writer), Ok(()));
    assert_eq!(writer, b"# line 3\nline 2\nline 5\nline 4\nline 1\n".to_vec());
}

#[test]
fn seeded_sampling_repeats_itself() {
    let input = b"ab\n\ncdef\ng\nhi\nrest".to_vec();
    for seed in 0..20u64 {
        for allow_duplicates in [true, false] {
            let mut first = vec![];
            let mut second = vec![];
            let one = quicklines(&input, 4, allow_duplicates, Some(seed), &mut first);
            let other = quicklines(&input, 4, allow_duplicates, Some(seed), &mut second);
            assert_eq!(one, other);
            assert_eq!(first, second);
        }
    }
}

#[test]
fn unseeded_sampling_writes_whole_lines() {
    let input = input_uniform_lines();
    let mut writer = vec![];
    assert_eq!(quicklines(&input, 40, true, None, &mut writer), Ok(()));
    let lines = lines_of(&writer);
    assert_eq!(lines.len(), 40);
    assert!(lines.iter().all(|line| line.len() == 6 && line.starts_with("line ")));
}

#[test]
fn sampling_all_lines_without_replacement_returns_each_once() {
    let input = input_uniform_lines();
    for seed in 0..30u64 {
        let mut writer = vec![];
        assert_eq!(quicklines(&input, 5, false, Some(seed), &mut writer), Ok(()));
        let mut lines = lines_of(&writer);
        lines.sort();
        assert_eq!(lines, vec!["line 1", "line 2", "line 3", "line 4", "line 5"]);
    }
}

#[test]
fn sampling_more_unique_lines_than_there_are_fails() {
    let input = input_uniform_lines();
    let mut writer = vec![];
    let outcome = quicklines(&input, 6, false, Some(12), &mut writer);
    assert_eq!(outcome, Err(SampleError::Exhausted { requested: 6, found: 5 }));
    assert_eq!(
        outcome.unwrap_err().message(),
        "cannot sample 6 unique lines from file with only 5 lines"
    );
    // the lines written before the failure stay written
    assert_eq!(writer, b"line 3\nline 2\nline 5\nline 4\nline 1\n".to_vec());
}

#[test]
fn sampling_from_data_without_two_newlines_fails() {
    for input in [&b""[..], &b"no newline here"[..], &b"a single line\n"[..]] {
        for allow_duplicates in [true, false] {
            let mut writer = b"kept".to_vec();
            let outcome = quicklines(input, 1, allow_duplicates, Some(1), &mut writer);
            assert_eq!(outcome, Err(SampleError::NoNewlines));
            assert_eq!(writer, b"kept".to_vec());
        }
    }
}

#[test]
fn sampling_never_returns_an_unterminated_tail() {
    let input = b"one\ntwo\nthree".to_vec();
    let mut writer = vec![];
    assert_eq!(quicklines(&input, 200, true, Some(3), &mut writer), Ok(()));
    let lines: HashSet<String> = lines_of(&writer).into_iter().collect();
    let expected: HashSet<String> = ["one", "two"].iter().map(|line| line.to_string()).collect();
    assert_eq!(lines, expected);
}

#[test]
fn five_lines_sampled_both_ways() {
    let input = input_uniform_lines();
    let mut writer = vec![];
    quicklines(&input, 3, true, Some(7), &mut writer).unwrap();
    let lines = lines_of(&writer);
    assert_eq!(lines.len(), 3);
    let distinct: HashSet<_> = lines.iter().collect();
    assert!(distinct.len() <= 5);

    let mut writer = vec![];
    quicklines(&input, 5, false, Some(7), &mut writer).unwrap();
    let lines = lines_of(&writer);
    let distinct: HashSet<_> = lines.iter().collect();
    assert_eq!(lines.len(), 5);
    assert_eq!(distinct.len(), 5);
}
