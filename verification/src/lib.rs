//! A Connect Four engine: it scores the moves of one side by a minimax
//! search of bounded depth with alpha-beta pruning and a transposition
//! cache.

pub mod board;
pub mod game;
pub mod order;
pub mod position;
pub mod search;

use vstd::prelude::*;
use crate::game::{Game, COLS, ROWS, WIN};
use crate::board::is_playable;
use crate::position::Position;
use crate::search::column_scores;

verus! {

/// Column `best` holds the greatest score, and no column before it does.
pub open spec fn is_first_best(scores: Seq<i8>, best: int) -> bool {
    &&& 0 <= best < scores.len()
    &&& forall|c: int| 0 <= c < scores.len() ==> (#[trigger] scores[c]) <= scores[best]
    &&& forall|c: int| 0 <= c < best ==> (#[trigger] scores[c]) < scores[best]
}

/// There is one first best column and no other.
pub proof fn lemma_first_best_is_unique(scores: Seq<i8>, one: int, other: int)
    requires
        is_first_best(scores, one),
        is_first_best(scores, other),
    ensures
        one == other,
{
    if one < other {
        assert(scores[one] < scores[other]);
        assert(scores[other] <= scores[one]);
    } else if other < one {
        assert(scores[other] < scores[one]);
        assert(scores[one] <= scores[other]);
    }
}

/// Number of rows of the board.
pub fn rows() -> (n: u32)
    ensures
        n == ROWS,
{
    ROWS as u32
}

/// Number of columns of the board.
pub fn cols() -> (n: u32)
    ensures
        n == COLS,
{
    COLS as u32
}

/// Length of a winning run.
pub fn wins() -> (n: u32)
    ensures
        n == WIN,
{
    WIN as u32
}

/// The column that the search to depth `moves` likes best for `AI` on the
/// given board: the first of the columns with the greatest score.
pub fn calculate_move(board: Vec<Vec<u32>>, moves: u32) -> (best: u32)
    requires
        is_playable(board.deep_view()),
    ensures
        is_first_best(
            column_scores(Position::of_board(board.deep_view()), moves as nat),
            best as int,
        ),
{
    let mut game = Game::new(board);
    let scores = game.minimax(moves);
    let mut best_col: usize = 0;
    let mut best_score = i8::MIN;
    for i in 0..scores.len()
        invariant
            best_col < COLS,
            forall|c: int| 0 <= c < i ==> scores[c] <= best_score,
            i == 0 ==> best_col == 0 && best_score == i8::MIN,
            i > 0 ==> best_col < i && scores[best_col as int] == best_score,
            forall|c: int| 0 <= c < best_col ==> scores[c] < scores[best_col as int],
    {
        if scores[i] > best_score {
            best_score = scores[i];
            best_col = i;
        }
    }
    best_col as u32
}

/// The scores, by column, that the search to depth `moves` gives the moves
/// of `AI` on the given board.
pub fn calculate_scores(board: Vec<Vec<u32>>, moves: u32) -> (scores: [i8; COLS])
    requires
        is_playable(board.deep_view()),
    ensures
        scores@ == column_scores(Position::of_board(board.deep_view()), moves as nat),
{
    let mut game = Game::new(board);
    let scores = game.minimax(moves);
    scores
}

} // verus!
