use mygrep::render::usize_to_string;
use mygrep::render_match;

#[test]
fn decimal_rendering() {
    assert_eq!("0", usize_to_string(0));
    assert_eq!("7", usize_to_string(7));
    assert_eq!("10", usize_to_string(10));
    assert_eq!("203", usize_to_string(203));
    assert_eq!("4294967295", usize_to_string(4294967295));
}

#[test]
fn line_number_prefix_follows_the_flag() {
    assert_eq!("3:export PAGER=less", render_match(3, "export PAGER=less", true));
    assert_eq!("export PAGER=less", render_match(3, "export PAGER=less", false));
    assert_eq!("12:", render_match(12, "", true));
}
