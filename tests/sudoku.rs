use marshians_fn::sudoku::{solve, Board, Error};

const PUZZLE: &str =
    "120400586060201403040096000090000014081000360430000070000720030608903040372008051";
const SOLUTION: &str =
    "129437586867251493543896127795362814281574369436189275914725638658913742372648951";

#[test]
fn valid() {
    let tests = vec![
        (
            true,
            0,
            1,
            "023456789000000000000000000000000000000000000000000000000000000000000000000000000",
        ),
        (
            false,
            0,
            2,
            "023456789000000000000000000000000000000000000000000000000000000000000000000000000",
        ),
        (
            false,
            0,
            1,
            "000000001000000000000000000000000000000000000000000000000000000000000000000000000",
        ),
        (
            false,
            0,
            1,
            "000000000100000000000000000000000000000000000000000000000000000000000000000000000",
        ),
        (
            false,
            0,
            1,
            "000000000000000000000000000000000000000000000000000000000000000000000000100000000",
        ),
    ];
    for (n, test) in tests.iter().enumerate() {
        let b = Board::new(test.3).unwrap();
        assert_eq!(b.valid(test.1, test.2), test.0, "test {}", n);
    }
}

#[test]
fn solvable() {
    let mut board = Board::new(PUZZLE).unwrap();
    assert_eq!(board.solve(), true);
}

#[test]
fn to_string() {
    let mut board = Board::new(PUZZLE).unwrap();
    board.solve();
    assert_eq!(board.to_string(), SOLUTION);
}

#[test]
#[should_panic(expected = r#"string must contain only digits"#)]
fn board_new_non_numeric() {
    Board::new("240000789308000016001800023034502698 ._03007000006003008700090205300080160008435a")
        .unwrap();
}

#[test]
#[should_panic(expected = r#"string must be exactly 81 characters"#)]
fn board_new_too_short() {
    Board::new("24000078930800001600180002").unwrap();
}

#[test]
#[should_panic(expected = r#"string must be exactly 81 characters"#)]
fn board_new_too_long() {
    Board::new(
        "240000789308000016000000001800000000000000000000000000000000000000000000000000000000000002",
    )
    .unwrap();
}

#[test]
fn solve_returns_the_solution() {
    assert_eq!(solve(PUZZLE).unwrap(), SOLUTION);
}

#[test]
fn solve_rejects_wrong_lengths() {
    for s in ["", "0", &PUZZLE[..80], &format!("{}0", PUZZLE)] {
        assert!(matches!(solve(s), Err(Error::InvalidBoard(_))));
    }
}

#[test]
fn solve_rejects_non_digits() {
    let bad = format!("{}x", &PUZZLE[..80]);
    assert!(matches!(solve(&bad), Err(Error::InvalidBoard(_))));
    let spaced = format!(" {}", &PUZZLE[1..]);
    assert!(matches!(solve(&spaced), Err(Error::InvalidBoard(_))));
}

#[test]
fn solve_reports_unsolvable() {
    let clash = format!("023456789100000000{}", &"0".repeat(63));
    assert!(matches!(solve(&clash), Err(Error::Unsolvable)));
}

#[test]
fn solving_a_solved_board_changes_nothing() {
    let mut board = Board::new(SOLUTION).unwrap();
    assert!(board.solved());
    assert!(board.solve());
    assert_eq!(board.to_string(), SOLUTION);
    assert_eq!(solve(SOLUTION).unwrap(), SOLUTION);
}

#[test]
fn empty_board_gets_first_completion() {
    let solved = solve(&"0".repeat(81)).unwrap();
    assert_eq!(&solved[..9], "123456789");
    assert!(Board::new(&solved).unwrap().solved());
}

#[test]
fn next_unsolved_finds_first_empty_cell() {
    let board = Board::new(PUZZLE).unwrap();
    assert_eq!(board.next_unsolved(0), 2);
    assert_eq!(board.next_unsolved(3), 4);
    let full = Board::new(SOLUTION).unwrap();
    assert_eq!(full.next_unsolved(0), 81);
}

#[test]
fn error_messages() {
    let e = solve("1").unwrap_err();
    assert_eq!(e.message(), "Invalid board: string must be exactly 81 characters");
    assert_eq!(Error::Unsolvable.message(), "board is not solvable");
}

#[test]
fn solve_names_the_invalid_reason() {
    match solve("24000078930800001600180002") {
        Err(Error::InvalidBoard(m)) => assert_eq!(m, "string must be exactly 81 characters"),
        _ => panic!("expected an invalid board"),
    }
    let bad = format!("{}x", &PUZZLE[..80]);
    match solve(&bad) {
        Err(Error::InvalidBoard(m)) => {
            assert_eq!(m, "string must contain only digits (zero for empty)")
        }
        _ => panic!("expected an invalid board"),
    }
}
