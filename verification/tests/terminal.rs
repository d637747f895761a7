use n2::terminal::{get_cols, use_fancy};

#[test]
fn fancy_only_on_a_terminal() {
    assert!(use_fancy(1));
    assert!(!use_fancy(0));
}

#[test]
fn narrow_widths_are_ignored() {
    assert_eq!(get_cols(0), None);
    assert_eq!(get_cols(9), None);
    assert_eq!(get_cols(10), Some(10));
    assert_eq!(get_cols(132), Some(132));
}
