use crypto_arithmetic::letters::collect_letters;
use crypto_arithmetic::solver::{pair_letters, puzzle_fits};
use crypto_arithmetic::{is_valid_solution, solve_crypto_arithmetic, word_to_number};

fn owned(words: &[&str]) -> Vec<String> {
    words.iter().map(|w| w.to_string()).collect()
}

#[test]
fn send_more_money_has_a_solution_that_adds_up() {
    let words = owned(&["SEND", "MORE"]);
    let result = "MONEY".to_string();
    let mapping = solve_crypto_arithmetic(words.clone(), result.clone()).unwrap();
    let send = word_to_number("SEND", &mapping);
    let more = word_to_number("MORE", &mapping);
    let money = word_to_number("MONEY", &mapping);
    assert_eq!(send + more, money);
    assert!(is_valid_solution(&words, &result, &mapping));
}

#[test]
fn send_more_money_classical_assignment_is_valid() {
    let words = owned(&["SEND", "MORE"]);
    let result = "MONEY".to_string();
    let classical = vec![
        ('O', 0),
        ('M', 1),
        ('Y', 2),
        ('E', 5),
        ('N', 6),
        ('D', 7),
        ('R', 8),
        ('S', 9),
    ];
    assert_eq!(word_to_number("SEND", &classical), 9567);
    assert_eq!(word_to_number("MORE", &classical), 1085);
    assert_eq!(word_to_number("MONEY", &classical), 10652);
    assert!(is_valid_solution(&words, &result, &classical));
}

#[test]
fn send_more_money_first_solution_in_dictionary_order() {
    let found = solve_crypto_arithmetic(owned(&["SEND", "MORE"]), "MONEY".to_string());
    let expected = vec![
        ('S', 2),
        ('E', 8),
        ('N', 1),
        ('D', 7),
        ('M', 0),
        ('O', 3),
        ('R', 6),
        ('Y', 5),
    ];
    assert_eq!(found, Some(expected));
}

#[test]
fn more_than_ten_letters_has_no_solution() {
    let words = owned(&["A", "B", "C", "D", "E", "F", "G", "H", "I", "J", "K"]);
    assert_eq!(solve_crypto_arithmetic(words, "L".to_string()), None);
}

#[test]
fn eleven_letters_in_two_words_have_no_solution() {
    let words = owned(&["ABCDEF", "GHIJK"]);
    assert_eq!(solve_crypto_arithmetic(words, "A".to_string()), None);
}

#[test]
fn ten_letters_are_still_searched() {
    let found = solve_crypto_arithmetic(owned(&["ABCDE", "FGHIJ"]), "FIACD".to_string());
    let expected: Vec<(char, u32)> = "ABCDEFGHIJ".chars().zip(0..10).collect();
    assert_eq!(found, Some(expected));
}

#[test]
fn returned_letters_and_digits_are_pairwise_distinct() {
    let puzzles: [(&[&str], &str); 4] = [
        (&["SEND", "MORE"], "MONEY"),
        (&["TWO", "TWO"], "FOUR"),
        (&["ODD", "ODD"], "EVEN"),
        (&["I", "BB"], "ILL"),
    ];
    for (words, result) in puzzles {
        let mapping = solve_crypto_arithmetic(owned(words), result.to_string()).unwrap();
        for i in 0..mapping.len() {
            assert!(mapping[i].1 <= 9);
            for j in 0..i {
                assert_ne!(mapping[i].0, mapping[j].0);
                assert_ne!(mapping[i].1, mapping[j].1);
            }
        }
    }
}

#[test]
fn returned_mapping_passes_the_validity_check() {
    let puzzles: [(&[&str], &str); 5] = [
        (&["SEND", "MORE"], "MONEY"),
        (&["TWO", "TWO"], "FOUR"),
        (&["TO", "GO"], "OUT"),
        (&["AB", "C"], "DE"),
        (&["A", "B", "C"], "BA"),
    ];
    for (words, result) in puzzles {
        let words = owned(words);
        let result = result.to_string();
        let mapping = solve_crypto_arithmetic(words.clone(), result.clone()).unwrap();
        assert!(is_valid_solution(&words, &result, &mapping));
    }
}

#[test]
fn repeated_calls_return_the_same_mapping() {
    let first = solve_crypto_arithmetic(owned(&["TWO", "TWO"]), "FOUR".to_string());
    let second = solve_crypto_arithmetic(owned(&["TWO", "TWO"]), "FOUR".to_string());
    let third = solve_crypto_arithmetic(owned(&["TWO", "TWO"]), "FOUR".to_string());
    assert!(first.is_some());
    assert_eq!(first, second);
    assert_eq!(second, third);
}

#[test]
fn ab_plus_ab_is_never_cc() {
    let mut expected_solvable = false;
    for a in 0..10u64 {
        for b in 0..10u64 {
            for c in 0..10u64 {
                if a != b && a != c && b != c && (10 * a + b) + (10 * a + b) == 10 * c + c {
                    expected_solvable = true;
                }
            }
        }
    }
    assert!(!expected_solvable);
    let found = solve_crypto_arithmetic(owned(&["AB", "AB"]), "CC".to_string());
    assert_eq!(found.is_some(), expected_solvable);
    assert_eq!(found, None);
}

#[test]
fn first_solution_of_small_puzzles() {
    assert_eq!(
        solve_crypto_arithmetic(owned(&["A", "B"]), "C".to_string()),
        Some(vec![('A', 1), ('B', 2), ('C', 3)])
    );
    assert_eq!(
        solve_crypto_arithmetic(owned(&["TWO", "TWO"]), "FOUR".to_string()),
        Some(vec![('T', 1), ('W', 3), ('O', 2), ('F', 0), ('U', 6), ('R', 4)])
    );
    assert_eq!(
        solve_crypto_arithmetic(owned(&["AB", "C"]), "DE".to_string()),
        Some(vec![('A', 0), ('B', 3), ('C', 9), ('D', 1), ('E', 2)])
    );
    assert_eq!(
        solve_crypto_arithmetic(owned(&["ODD", "ODD"]), "EVEN".to_string()),
        Some(vec![('O', 6), ('D', 5), ('E', 1), ('V', 3), ('N', 0)])
    );
}

#[test]
fn a_word_may_begin_with_zero() {
    let found = solve_crypto_arithmetic(owned(&["A"]), "A".to_string());
    assert_eq!(found, Some(vec![('A', 0)]));
    let found = solve_crypto_arithmetic(owned(&["I", "BB"]), "ILL".to_string());
    assert_eq!(found, Some(vec![('I', 1), ('B', 9), ('L', 0)]));
}

#[test]
fn a_puzzle_without_letters_is_solved_by_the_empty_mapping() {
    let found = solve_crypto_arithmetic(owned(&["", ""]), String::new());
    assert_eq!(found, Some(Vec::new()));
    let found = solve_crypto_arithmetic(Vec::new(), String::new());
    assert_eq!(found, Some(Vec::new()));
}

#[test]
fn letters_are_told_apart_by_case() {
    assert_eq!(solve_crypto_arithmetic(owned(&["a"]), "A".to_string()), None);
    assert_eq!(
        solve_crypto_arithmetic(owned(&["a", "A"]), "b".to_string()),
        Some(vec![('a', 1), ('A', 2), ('b', 3)])
    );
}

#[test]
fn operands_can_be_any_number_of_words() {
    assert_eq!(
        solve_crypto_arithmetic(owned(&["A", "B", "C"]), "BA".to_string()),
        Some(vec![('A', 0), ('B', 1), ('C', 9)])
    );
    assert_eq!(
        solve_crypto_arithmetic(owned(&["AB"]), "AB".to_string()),
        Some(vec![('A', 0), ('B', 1)])
    );
}

#[test]
fn letters_come_in_order_of_first_occurrence() {
    let letters = collect_letters(&owned(&["SEND", "MORE"]), &"MONEY".to_string());
    assert_eq!(letters, vec!['S', 'E', 'N', 'D', 'M', 'O', 'R', 'Y']);
    let letters = collect_letters(&owned(&["BANANA"]), &"BAN".to_string());
    assert_eq!(letters, vec!['B', 'A', 'N']);
    let letters = collect_letters(&Vec::new(), &String::new());
    assert_eq!(letters, Vec::<char>::new());
}

#[test]
fn letters_and_digits_are_paired_by_place() {
    let pairs = pair_letters(&vec!['X', 'Y', 'Z'], &vec![7, 0, 3]);
    assert_eq!(pairs, vec![('X', 7), ('Y', 0), ('Z', 3)]);
    let pairs = pair_letters(&vec!['X', 'Y', 'Z'], &vec![7]);
    assert_eq!(pairs, vec![('X', 7)]);
    let pairs = pair_letters(&vec!['X'], &vec![7, 8]);
    assert_eq!(pairs, vec![('X', 7)]);
}

#[test]
fn words_of_up_to_nineteen_letters_fit() {
    let long = "ABCDEFGHIJABCDEFGHI".to_string();
    let longer = "ABCDEFGHIJABCDEFGHIJ".to_string();
    assert!(puzzle_fits(&vec![long.clone(), "A".to_string()], &long));
    assert!(!puzzle_fits(&vec![longer.clone(), "A".to_string()], &long));
    assert!(!puzzle_fits(&vec!["A".to_string(), longer.clone()], &long));
    assert!(!puzzle_fits(&vec![long.clone()], &longer));
    assert!(puzzle_fits(&Vec::new(), &String::new()));
}

#[test]
fn longest_words_are_searched() {
    let word = "AAAAAAAAAAAAAAAAAAA".to_string();
    assert!(puzzle_fits(&vec![word.clone()], &word));
    let found = solve_crypto_arithmetic(vec![word.clone()], word.clone());
    assert_eq!(found, Some(vec![('A', 0)]));
    let found = solve_crypto_arithmetic(vec![word.clone(), word.clone()], word);
    assert_eq!(found, Some(vec![('A', 0)]));
}
