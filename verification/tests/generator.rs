use quicklines::generator::Generator;

#[test]
fn seeded_generator_starts_in_the_seed() {
    assert_eq!(Generator::with_seed(12).state(), 12);
}

#[test]
fn offsets_stay_in_the_range() {
    let mut generator = Generator::with_seed(99);
    for upper in [0usize, 1, 2, 7, 28, 1000] {
        for _ in 0..200 {
            assert!(generator.offset(upper) <= upper);
        }
    }
}

#[test]
fn a_draw_moves_the_generator_on() {
    let mut generator = Generator::with_seed(12);
    let offset = generator.offset(28);
    assert_eq!(offset, 11);
    assert_eq!(generator.state(), 3257665815644502193);
    assert_eq!(generator.offset(28), 8);
    assert_eq!(generator.offset(28), 1);
    assert_eq!(generator.offset(28), 28);
    assert_eq!(generator.offset(28), 19);
}

#[test]
fn equal_states_give_equal_offsets() {
    let mut one = Generator::with_seed(2024);
    let mut other = Generator::with_seed(2024);
    for _ in 0..100 {
        assert_eq!(one.offset(12345), other.offset(12345));
        assert_eq!(one.state(), other.state());
    }
}

#[test]
fn a_generator_resumes_from_its_state() {
    let mut one = Generator::with_seed(5);
    one.offset(10);
    let mut other = Generator::with_seed(one.state());
    assert_eq!(one.offset(10), other.offset(10));
}

#[test]
fn the_whole_range_can_be_drawn_from() {
    let mut generator = Generator::with_seed(7);
    assert_eq!(generator.offset(usize::MAX) as u64, 14266376187910451857);
    assert_eq!(generator.state(), 3257665815644502188);
}

#[test]
fn unseeded_generators_draw_in_range() {
    let mut generator = Generator::from_entropy();
    assert!(generator.offset(3) <= 3);
}
