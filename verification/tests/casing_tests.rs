use emend_lt::casing::{is_all_uppercase, is_capitalized_word, is_mixed_case, uppercase_first_char};

#[test]
fn predicates() {
    assert!(is_all_uppercase("FRANCE"));
    assert!(is_all_uppercase("123"));
    assert!(!is_all_uppercase("France"));
    assert!(is_capitalized_word("France"));
    assert!(!is_capitalized_word("france"));
    assert!(!is_capitalized_word("FRANCE"));
    assert!(is_mixed_case("iPhone"));
    assert!(is_mixed_case("McGraw"));
    assert!(!is_mixed_case("Hello"));
    assert!(!is_mixed_case("hello"));
    assert_eq!(uppercase_first_char("france"), "France");
}

#[test]
fn uppercase_first_char_of_empty_is_empty() {
    assert_eq!(uppercase_first_char(""), "");
    assert_eq!(uppercase_first_char("ßa"), "SSa");
}
