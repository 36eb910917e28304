use zirium::parser::checked_text_edit_output_size;

#[test]
fn overflowing_replacement_total_is_rejected() {
    assert_eq!(
        checked_text_edit_output_size(0, &[(0, usize::MAX), (0, 1)]),
        None
    );
}

#[test]
fn edit_sizes_add_up() {
    assert_eq!(checked_text_edit_output_size(10, &[(3, 5), (2, 0)]), Some(10));
    assert_eq!(checked_text_edit_output_size(1, &[(2, 5)]), None);
    assert_eq!(checked_text_edit_output_size(7, &[]), Some(7));
}
