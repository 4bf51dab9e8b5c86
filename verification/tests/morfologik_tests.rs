use emend_lt::dict::decode_suffix;
use emend_lt::speller::{contains_no_digit, is_mixed_case};

#[test]
fn suffix_regular_inflection() {
    assert_eq!(decode_suffix(b"walked", b"C"), b"walk");
    assert_eq!(decode_suffix(b"houses", b"B"), b"house");
}

#[test]
fn suffix_irregular_with_appended_suffix() {
    assert_eq!(decode_suffix(b"mice", b"Emouse"), b"mouse");
    assert_eq!(decode_suffix(b"better", b"Ggood"), b"good");
}

#[test]
fn suffix_identity() {
    assert_eq!(decode_suffix(b"running", b"A"), b"running");
}

#[test]
fn suffix_trim_saturates_at_word_length() {
    // A trim count longer than the word removes the whole word.
    assert_eq!(decode_suffix(b"ox", b"Zen"), b"en");
}

#[test]
fn mixed_case_classification() {
    assert!(is_mixed_case("tHe"));
    assert!(is_mixed_case("McDonald"));
    assert!(is_mixed_case("iPhone"));
    assert!(!is_mixed_case("Paris"));
    assert!(!is_mixed_case("hello"));
    assert!(!is_mixed_case("HELLO"));
    assert!(!is_mixed_case("The"));
}

#[test]
fn digit_guard() {
    assert!(!contains_no_digit("covid19"));
    assert!(contains_no_digit("covid"));
}
