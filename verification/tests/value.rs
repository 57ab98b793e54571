use crypto_arithmetic::value::find_digit;
use crypto_arithmetic::{is_valid_solution, word_to_number};

#[test]
fn word_is_read_most_significant_letter_first() {
    let mapping = vec![('A', 1), ('B', 2), ('C', 3)];
    assert_eq!(word_to_number("ABC", &mapping), 123);
    assert_eq!(word_to_number("CBA", &mapping), 321);
    assert_eq!(word_to_number("AAB", &mapping), 112);
    assert_eq!(word_to_number("C", &mapping), 3);
}

#[test]
fn empty_word_is_zero() {
    assert_eq!(word_to_number("", &[]), 0);
    assert_eq!(word_to_number("", &[('A', 5)]), 0);
}

#[test]
fn leading_zero_is_accepted() {
    let mapping = vec![('A', 0), ('B', 4)];
    assert_eq!(word_to_number("AB", &mapping), 4);
    assert_eq!(word_to_number("AAB", &mapping), 4);
    assert_eq!(word_to_number("BA", &mapping), 40);
    assert_eq!(word_to_number("A", &mapping), 0);
}

#[test]
fn ten_digit_words_are_read_exactly() {
    let mapping = vec![('N', 9)];
    assert_eq!(word_to_number("NNNNNNNNNN", &mapping), 9_999_999_999);
    let mapping: Vec<(char, u32)> = "ABCDEFGHIJ".chars().zip((0..10).rev()).collect();
    assert_eq!(word_to_number("ABCDEFGHIJ", &mapping), 9_876_543_210);
}

#[test]
fn longest_word_is_read_exactly() {
    let mapping = vec![('N', 9)];
    assert_eq!(word_to_number("NNNNNNNNNNNNNNNNNNN", &mapping), 9_999_999_999_999_999_999);
}

#[test]
fn first_pair_of_a_letter_gives_its_digit() {
    let mapping = vec![('A', 1), ('B', 2), ('A', 7)];
    assert_eq!(find_digit(&mapping, 'A'), Some(1));
    assert_eq!(find_digit(&mapping, 'B'), Some(2));
    assert_eq!(find_digit(&mapping, 'C'), None);
    assert_eq!(find_digit(&[], 'A'), None);
    assert_eq!(word_to_number("ABA", &mapping), 121);
}

#[test]
fn validity_is_the_sum_of_the_operands_against_the_result() {
    let words = vec!["AB".to_string(), "BA".to_string()];
    let result = "CC".to_string();
    assert!(is_valid_solution(&words, &result, &[('A', 1), ('B', 2), ('C', 3)]));
    assert!(!is_valid_solution(&words, &result, &[('A', 1), ('B', 2), ('C', 4)]));
    assert!(!is_valid_solution(&words, &result, &[('A', 1), ('B', 3), ('C', 3)]));
}

#[test]
fn validity_with_no_operands_asks_for_a_zero_result() {
    let words: Vec<String> = Vec::new();
    assert!(is_valid_solution(&words, &"A".to_string(), &[('A', 0)]));
    assert!(!is_valid_solution(&words, &"A".to_string(), &[('A', 1)]));
    assert!(is_valid_solution(&words, &String::new(), &[]));
}

#[test]
fn validity_with_three_operands() {
    let words = vec!["A".to_string(), "B".to_string(), "C".to_string()];
    let mapping = vec![('A', 7), ('B', 8), ('C', 9), ('D', 2), ('E', 4)];
    assert!(is_valid_solution(&words, &"DE".to_string(), &mapping));
    assert!(!is_valid_solution(&words, &"ED".to_string(), &mapping));
}

#[test]
fn a_sum_beyond_the_machine_word_is_not_the_result() {
    let long = "NNNNNNNNNNNNNNNNNNN".to_string();
    let words = vec![long.clone(), long.clone()];
    assert!(!is_valid_solution(&words, &long, &[('N', 9)]));
    let words = vec![long.clone(), long.clone(), long.clone()];
    assert!(!is_valid_solution(&words, &long, &[('N', 9)]));
    let words = vec![long.clone()];
    assert!(is_valid_solution(&words, &long, &[('N', 9)]));
}
