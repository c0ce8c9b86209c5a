use geochunk::digits::{is_code_str, CODE_LENGTH};
use geochunk::population::PrefixPopulation;
use geochunk::zip2010::Classifier;

#[test]
fn a_code_has_five_characters() {
    assert_eq!(CODE_LENGTH, 5);
}

#[test]
fn tells_full_codes_from_other_strings() {
    assert!(is_code_str("01001"));
    assert!(is_code_str("99999"));
    assert!(!is_code_str(""));
    assert!(!is_code_str("0100"));
    assert!(!is_code_str("010011"));
    assert!(!is_code_str("0100a"));
    assert!(!is_code_str("01 01"));
    assert!(!is_code_str("-1001"));
    assert!(!is_code_str("0100/"));
    assert!(!is_code_str("0100:"));
    // Five characters that are digits elsewhere, not in a code.
    assert!(!is_code_str("\u{661}\u{662}\u{663}\u{664}\u{665}"));
}

fn shared<T: Send + Sync>() {}

#[test]
fn tables_and_classifiers_can_be_shared() {
    shared::<PrefixPopulation>();
    shared::<Classifier>();
}
