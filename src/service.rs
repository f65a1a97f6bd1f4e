//! The values that the web service exchanges, and the work behind each of
//! its two requests.
use std::collections::HashSet;

use vstd::prelude::*;

use crate::sudoku::{
    grid_text, has_completion, invalid_reason, is_board_text, is_first_completion, parse_grid, solve,
};
use crate::words::{
    candidate_words, dictionary_words, first_found, is_arrangement, strings_view, words,
};

verus! {

/// What the service holds between requests: the dictionary.
pub struct State {
    pub dictionary: HashSet<String>,
}

/// A board as it was sent, and its solution.
pub struct SudokuSolution {
    pub original: String,
    pub solution: String,
}

/// A word-search request: the pool of letters and the shortest word size.
pub struct LetterToWordsBody {
    pub letters: String,
    pub min: usize,
}

/// Answers a sudoku request: the board with its solution, or the message of
/// the error.
pub fn sudoku_solver(board: &str) -> (r: Result<SudokuSolution, String>)
    ensures
        r is Ok <==> is_board_text(board@) && has_completion(parse_grid(board@)),
        r matches Ok(s) ==> s.original@ == board@ && exists|h: Seq<u8>|
            #![trigger grid_text(h)]
            s.solution@ == grid_text(h) && is_first_completion(parse_grid(board@), h),
        r matches Err(m) ==> m@ == if is_board_text(board@) {
            "board is not solvable"@
        } else {
            "Invalid board: "@ + invalid_reason(board@)
        },
{
    match solve(board) {
        Ok(solution) => Ok(SudokuSolution { original: String::from_str(board), solution }),
        Err(e) => {
            let m = e.message();
            Err(m)
        },
    }
}

/// Answers a word-search request from the dictionary in `state`.
pub fn letters_to_words(state: &State, body: &LetterToWordsBody) -> (r: Vec<String>)
    requires
        body.min <= body.letters@.len() ==> body.letters@.len() < 64,
    ensures
        strings_view(r@) == first_found(
            dictionary_words(&state.dictionary),
            candidate_words(body.letters@, body.min as nat),
        ),
        forall|j: int|
            0 <= j < r@.len() ==> dictionary_words(&state.dictionary).contains(#[trigger] r@[j]@),
        forall|j: int|
            0 <= j < r@.len() ==> is_arrangement(body.letters@, body.min as nat, #[trigger] r@[j]@),
        forall|a: int, b: int| 0 <= a < b < r@.len() ==> (#[trigger] r@[a])@ != (#[trigger] r@[b])@,
{
    words(&state.dictionary, body.letters.as_str(), body.min)
}

} // verus!
