use quicklines::output::write_lines;

#[test]
fn lines_are_copied_in_the_order_given() {
    let data = b"first\nsecond\nthird\n";
    let mut writer = b"> ".to_vec();
    write_lines(data, &[(13, 19), (0, 6), (13, 19)], &mut writer);
    assert_eq!(writer, b"> third\nfirst\nthird\n".to_vec());
}

#[test]
fn no_lines_leave_the_writer_as_it_was() {
    let mut writer = b"kept".to_vec();
    write_lines(b"a\nb\n", &[], &mut writer);
    assert_eq!(writer, b"kept".to_vec());
}
