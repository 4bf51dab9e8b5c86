use emend_lt::render::{java_to_fancy_replacement, normalize_spaces};

#[test]
fn java_replacement_group_adjacent_text() {
    assert_eq!(java_to_fancy_replacement("$1re"), "${1}re");
    assert_eq!(java_to_fancy_replacement("$1 $3"), "${1} ${3}");
    assert_eq!(java_to_fancy_replacement(r"\$"), "$");
}

#[test]
fn lone_dollar_and_trailing_backslash() {
    assert_eq!(java_to_fancy_replacement("a$b"), "a$$b");
    assert_eq!(java_to_fancy_replacement("x\\"), "x");
    assert_eq!(java_to_fancy_replacement("$12x"), "${12}x");
}

#[test]
fn spaces_collapse() {
    assert_eq!(normalize_spaces("in  a \t while "), "in a while ");
    assert_eq!(normalize_spaces(" x"), " x");
}
