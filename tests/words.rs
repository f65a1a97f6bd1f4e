use std::collections::HashSet;

use marshians_fn::service::{letters_to_words, sudoku_solver, LetterToWordsBody, State};
use marshians_fn::words::words;

fn dictionary(list: &[&str]) -> HashSet<String> {
    list.iter().map(|w| w.to_string()).collect()
}

#[test]
fn test_words() {
    let set = dictionary(&["cat", "at"]);
    let mut found = words(&set, "cat", 2);
    found.sort();
    let mut expected = ["cat".to_string(), "at".to_string()];
    expected.sort();
    assert_eq!(found, expected);
}

#[test]
fn words_in_search_order() {
    let set = dictionary(&["cat", "at", "act", "ta", "a"]);
    assert_eq!(words(&set, "cat", 1), vec!["a", "at", "ta", "cat", "act"]);
}

#[test]
fn words_are_listed_once() {
    let set = dictionary(&["aa", "a"]);
    assert_eq!(words(&set, "aaa", 1), vec!["a", "aa"]);
}

#[test]
fn words_respect_the_minimum() {
    let set = dictionary(&["cat", "at"]);
    assert_eq!(words(&set, "cat", 3), vec!["cat"]);
    assert!(words(&set, "cat", 4).is_empty());
}

#[test]
fn words_with_empty_dictionary() {
    assert!(words(&HashSet::new(), "cat", 0).is_empty());
}

#[test]
fn service_letters_to_words() {
    let state = State { dictionary: dictionary(&["cat", "at"]) };
    let body = LetterToWordsBody { letters: "tac".to_string(), min: 2 };
    assert_eq!(letters_to_words(&state, &body), vec!["at", "cat"]);
}

#[test]
fn service_sudoku_solver() {
    let board =
        "120400586060201403040096000090000014081000360430000070000720030608903040372008051";
    let answer = sudoku_solver(board).ok().unwrap();
    assert_eq!(answer.original, board);
    assert_eq!(
        answer.solution,
        "129437586867251493543896127795362814281574369436189275914725638658913742372648951"
    );
    assert_eq!(
        sudoku_solver("12").err().unwrap(),
        "Invalid board: string must be exactly 81 characters"
    );
}

#[test]
fn words_minimum_above_long_pool_is_empty() {
    let set = dictionary(&["a"]);
    let pool = "a".repeat(70);
    assert!(words(&set, &pool, 71).is_empty());
}

#[test]
fn service_reports_unsolvable_text() {
    let board = format!("023456789100000000{}", &"0".repeat(63));
    assert_eq!(sudoku_solver(&board).err().unwrap(), "board is not solvable");
}
