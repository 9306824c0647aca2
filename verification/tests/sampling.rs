use quicklines::domain::last_valid_offset;
use quicklines::error::SampleError;
use quicklines::generator::Generator;
use quicklines::lines::maybe_extract_line;
use quicklines::sampling::{
    claim_line, pick_unseen, sample_with_replacement, sample_without_replacement,
};
use std::collections::HashSet;

fn uniform_lines() -> Vec<u8> {
    b"line 1\nline 2\nline 3\nline 4\nline 5\n".to_vec()
}

#[test]
fn with_replacement_picks_the_drawn_lines() {
    let data = uniform_lines();
    let mut generator = Generator::with_seed(12);
    let mut lines = Vec::new();
    let outcome = sample_with_replacement(&data, 3, 28, &mut generator, &mut lines);
    assert_eq!(outcome, Ok(()));
    assert_eq!(lines, vec![(14, 21), (14, 21), (7, 14)]);
    assert_eq!(generator.state(), 9772997446933506555);
}

#[test]
fn with_replacement_picks_as_many_lines_as_asked() {
    let data = b"ab\n\ncdef\ng\nrest".to_vec();
    let last = last_valid_offset(&data).unwrap();
    for count in [0usize, 1, 2, 10, 500] {
        let mut generator = Generator::with_seed(count as u64);
        let mut lines = Vec::new();
        let outcome = sample_with_replacement(&data, count, last, &mut generator, &mut lines);
        assert_eq!(outcome, Ok(()));
        assert_eq!(lines.len(), count);
        for (begin, end) in lines {
            assert_eq!(maybe_extract_line(&data, begin), Some((begin, end)));
        }
    }
}

#[test]
fn with_replacement_appends_to_what_is_there() {
    let data = uniform_lines();
    let mut generator = Generator::with_seed(12);
    let mut lines = vec![(0, 7)];
    let outcome = sample_with_replacement(&data, 2, 28, &mut generator, &mut lines);
    assert_eq!(outcome, Ok(()));
    assert_eq!(lines, vec![(0, 7), (14, 21), (14, 21)]);
}

#[test]
fn with_replacement_fails_on_a_probe_without_a_line() {
    let data = b"ab\ncd".to_vec();
    let mut generator = Generator::with_seed(4);
    let mut lines = Vec::new();
    let outcome = sample_with_replacement(&data, 50, 4, &mut generator, &mut lines);
    assert_eq!(outcome, Err(SampleError::Internal));
    assert_eq!(lines, vec![(0, 3)]);
}

#[test]
fn without_replacement_picks_every_line_once() {
    let data = uniform_lines();
    let mut generator = Generator::with_seed(12);
    let mut lines = Vec::new();
    let outcome = sample_without_replacement(&data, 5, 28, &mut generator, &mut lines);
    assert_eq!(outcome, Ok(()));
    assert_eq!(lines, vec![(14, 21), (7, 14), (28, 35), (21, 28), (0, 7)]);
    assert_eq!(generator.state(), 4356916635801963663);
}

#[test]
fn without_replacement_picks_all_lines_of_uniform_data() {
    for seed in 0..50u64 {
        let data = b"aa\nbb\ncc\ndd\n".to_vec();
        let last = last_valid_offset(&data).unwrap();
        let mut generator = Generator::with_seed(seed);
        let mut lines = Vec::new();
        let outcome = sample_without_replacement(&data, 4, last, &mut generator, &mut lines);
        assert_eq!(outcome, Ok(()));
        lines.sort();
        assert_eq!(lines, vec![(0, 3), (3, 6), (6, 9), (9, 12)]);
    }
}

#[test]
fn without_replacement_picks_distinct_lines() {
    let data = b"ab\n\ncdef\ng\nhi\nrest".to_vec();
    let last = last_valid_offset(&data).unwrap();
    for seed in 0..50u64 {
        let mut generator = Generator::with_seed(seed);
        let mut lines = Vec::new();
        let outcome = sample_without_replacement(&data, 3, last, &mut generator, &mut lines);
        let starts: HashSet<usize> = lines.iter().map(|line| line.0).collect();
        assert_eq!(starts.len(), lines.len());
        match outcome {
            Ok(()) => assert_eq!(lines.len(), 3),
            Err(error) => {
                assert_eq!(error, SampleError::Exhausted { requested: 3, found: lines.len() })
            }
        }
    }
}

#[test]
fn without_replacement_gives_up_beyond_the_lines_there_are() {
    let data = uniform_lines();
    let mut generator = Generator::with_seed(12);
    let mut lines = Vec::new();
    let outcome = sample_without_replacement(&data, 6, 28, &mut generator, &mut lines);
    assert_eq!(outcome, Err(SampleError::Exhausted { requested: 6, found: 5 }));
    assert_eq!(lines, vec![(14, 21), (7, 14), (28, 35), (21, 28), (0, 7)]);
}

#[test]
fn without_replacement_gives_up_after_a_long_line() {
    let data = b"a\nbbbbbbbbbb\n".to_vec();
    let mut generator = Generator::with_seed(0);
    let mut lines = Vec::new();
    let outcome = sample_without_replacement(&data, 2, 2, &mut generator, &mut lines);
    assert_eq!(outcome, Err(SampleError::Exhausted { requested: 2, found: 1 }));
    assert_eq!(lines, vec![(2, 13)]);

    let mut generator = Generator::with_seed(2);
    let mut lines = Vec::new();
    let outcome = sample_without_replacement(&data, 2, 2, &mut generator, &mut lines);
    assert_eq!(outcome, Ok(()));
    assert_eq!(lines, vec![(0, 2), (2, 13)]);
}

#[test]
fn without_replacement_fails_on_a_probe_without_a_line() {
    let data = b"ab\ncd".to_vec();
    let mut generator = Generator::with_seed(4);
    let mut lines = Vec::new();
    let outcome = sample_without_replacement(&data, 3, 4, &mut generator, &mut lines);
    assert_eq!(outcome, Err(SampleError::Internal));
    assert_eq!(lines, vec![(0, 3)]);
}

#[test]
fn sampling_nothing_draws_nothing() {
    let data = uniform_lines();
    let mut generator = Generator::with_seed(12);
    let mut lines = Vec::new();
    assert_eq!(sample_with_replacement(&data, 0, 28, &mut generator, &mut lines), Ok(()));
    assert_eq!(sample_without_replacement(&data, 0, 28, &mut generator, &mut lines), Ok(()));
    assert!(lines.is_empty());
    assert_eq!(generator.state(), 12);
}

#[test]
fn claim_line_tells_fresh_lines_from_seen_ones() {
    let data = b"first\nsecond\nthird\n".to_vec();
    let mut seen = HashSet::new();
    assert_eq!(claim_line(&data, 3, &mut seen), Ok(Some((6, 13))));
    assert_eq!(claim_line(&data, 6, &mut seen), Ok(None));
    assert_eq!(claim_line(&data, 0, &mut seen), Ok(Some((0, 6))));
    assert_eq!(claim_line(&data, 14, &mut seen), Err(SampleError::Internal));
    let mut starts: Vec<usize> = seen.into_iter().collect();
    starts.sort();
    assert_eq!(starts, vec![0, 6]);
}

#[test]
fn pick_unseen_draws_again_until_a_line_is_new() {
    let data = uniform_lines();
    let mut generator = Generator::with_seed(12);
    let mut seen = HashSet::new();
    assert_eq!(pick_unseen(&data, 28, &mut generator, &mut seen), Ok(Some((14, 21))));
    assert_eq!(generator.state(), 3257665815644502193);
    assert_eq!(pick_unseen(&data, 28, &mut generator, &mut seen), Ok(Some((7, 14))));
    assert_eq!(generator.state(), 9772997446933506555);
    assert_eq!(seen.len(), 2);
}
