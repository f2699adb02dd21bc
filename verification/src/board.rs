use vstd::prelude::*;
use crate::game::{Player, COLS, ROWS};

verus! {

/// A raw board has `ROWS` rows of `COLS` markers each.
pub open spec fn is_board(m: Seq<Seq<u32>>) -> bool {
    &&& m.len() == ROWS
    &&& forall|r: int| 0 <= r < ROWS ==> (#[trigger] m[r]).len() == COLS
}

/// Whether a marker stands for a token: every marker but those of the two
/// sides means an empty cell.
pub open spec fn is_token(marker: u32) -> bool {
    marker == Player::AI.marker() || marker == Player::HUMAN.marker()
}

/// The number of tokens of column `c` in the first `rows` rows.
pub open spec fn tokens_in_column(m: Seq<Seq<u32>>, c: int, rows: nat) -> nat
    decreases rows,
{
    if rows == 0 {
        0
    } else {
        tokens_in_column(m, c, (rows - 1) as nat) + if is_token(m[rows - 1][c]) {
            1nat
        } else {
            0nat
        }
    }
}

/// The tokens of a raw board lie on one another: under a token there is no
/// empty cell.
pub open spec fn is_stacked(m: Seq<Seq<u32>>) -> bool {
    forall|r: int, c: int|
        0 <= r < ROWS - 1 && 0 <= c < COLS && is_token(#[trigger] m[r][c]) ==> is_token(
            m[r + 1][c],
        )
}

/// A raw board can be played on: it has the size of the board and its tokens
/// lie on one another.
pub open spec fn is_playable(board: Seq<Seq<u32>>) -> bool {
    is_board(board) && is_stacked(board)
}

/// The first row at or below `from` in which column `c` holds a token, or
/// `ROWS` where there is none.
pub open spec fn first_token(m: Seq<Seq<u32>>, c: int, from: int) -> int
    decreases ROWS - from,
{
    if from >= ROWS {
        ROWS as int
    } else if is_token(m[from][c]) {
        from
    } else {
        first_token(m, c, from + 1)
    }
}

/// A column of a board holds at most as many tokens as rows were counted.
pub proof fn lemma_tokens_in_column_bound(m: Seq<Seq<u32>>, c: int, rows: nat)
    ensures
        tokens_in_column(m, c, rows) <= rows,
    decreases rows,
{
    if rows > 0 {
        lemma_tokens_in_column_bound(m, c, (rows - 1) as nat);
    }
}

/// In a column whose rows from `first` down to `rows` all hold tokens, and
/// none above `first` does, the first `rows` rows hold `rows - first` tokens.
pub proof fn lemma_tokens_in_column_run(m: Seq<Seq<u32>>, c: int, first: int, rows: nat)
    requires
        0 <= first <= rows,
        forall|r: int| 0 <= r < first ==> !is_token(#[trigger] m[r][c]),
        forall|r: int| first <= r < rows ==> is_token(#[trigger] m[r][c]),
    ensures
        tokens_in_column(m, c, rows) == rows - first,
    decreases rows,
{
    if rows > 0 {
        if first == rows {
            lemma_tokens_in_column_run(m, c, first - 1, (rows - 1) as nat);
        } else {
            lemma_tokens_in_column_run(m, c, first, (rows - 1) as nat);
        }
    }
}

/// In a stacked board every cell at or below a token holds a token.
pub proof fn lemma_stacked_below(m: Seq<Seq<u32>>, c: int, top: int, r: int)
    requires
        is_stacked(m),
        0 <= c < COLS,
        0 <= top <= r < ROWS,
        is_token(m[top][c]),
    ensures
        is_token(m[r][c]),
    decreases r - top,
{
    if top < r {
        lemma_stacked_below(m, c, top, r - 1);
        assert(is_token(m[r - 1][c]));
    }
}

/// `first_token` finds a token where there is one, and no row between
/// `from` and the row found holds one.
pub proof fn lemma_first_token(m: Seq<Seq<u32>>, c: int, from: int)
    requires
        0 <= from <= ROWS,
    ensures
        from <= first_token(m, c, from) <= ROWS,
        forall|r: int| from <= r < first_token(m, c, from) ==> !is_token(#[trigger] m[r][c]),
        first_token(m, c, from) < ROWS ==> is_token(m[first_token(m, c, from)][c]),
    decreases ROWS - from,
{
    if from < ROWS && !is_token(m[from][c]) {
        lemma_first_token(m, c, from + 1);
    }
}

/// The tokens of a column of a stacked board are exactly its lowest cells,
/// as many as the column counts.
pub proof fn lemma_stacked_column(m: Seq<Seq<u32>>, c: int)
    requires
        is_stacked(m),
        0 <= c < COLS,
    ensures
        tokens_in_column(m, c, ROWS as nat) <= ROWS,
        forall|r: int|
            0 <= r < ROWS ==> (is_token(#[trigger] m[r][c]) <==> r >= ROWS - tokens_in_column(
                m,
                c,
                ROWS as nat,
            )),
{
    lemma_tokens_in_column_bound(m, c, ROWS as nat);
    if exists|r: int| 0 <= r < ROWS && is_token(#[trigger] m[r][c]) {
        let first = first_token(m, c, 0);
        lemma_first_token(m, c, 0);
        assert forall|r: int| first <= r < ROWS implies is_token(#[trigger] m[r][c]) by {
            lemma_stacked_below(m, c, first, r);
        }
        lemma_tokens_in_column_run(m, c, first, ROWS as nat);
    } else {
        lemma_tokens_in_column_run(m, c, ROWS as int, ROWS as nat);
    }
}

/// Whether a marker of a raw board stands for a token.
fn marks_token(marker: u32) -> (token: bool)
    ensures
        token == is_token(marker),
{
    marker == Player::AI.token() || marker == Player::HUMAN.token()
}

/// Tells whether a raw board can be played on.
pub fn check_board(board: &Vec<Vec<u32>>) -> (ok: bool)
    ensures
        ok == is_playable(board.deep_view()),
{
    let ghost m = board.deep_view();
    if board.len() != ROWS {
        return false;
    }
    for r in 0..ROWS
        invariant
            m == board.deep_view(),
            m.len() == ROWS,
            forall|p: int| 0 <= p < r ==> (#[trigger] m[p]).len() == COLS,
    {
        if board[r].len() != COLS {
            assert(m[r as int].len() != COLS);
            return false;
        }
    }
    for r in 0..(ROWS - 1)
        invariant
            m == board.deep_view(),
            is_board(m),
            forall|p: int, c: int|
                0 <= p < r && 0 <= c < COLS && is_token(#[trigger] m[p][c]) ==> is_token(
                    m[p + 1][c],
                ),
    {
        for c in 0..COLS
            invariant
                r < ROWS - 1,
                m == board.deep_view(),
                is_board(m),
                forall|p: int, c: int|
                    0 <= p < r && 0 <= c < COLS && is_token(#[trigger] m[p][c]) ==> is_token(
                        m[p + 1][c],
                    ),
                forall|q: int|
                    0 <= q < c && is_token(#[trigger] m[r as int][q]) ==> is_token(m[r + 1][q]),
        {
            assert(board@[r as int]@[c as int] == m[r as int][c as int]);
            assert(board@[r + 1]@[c as int] == m[r + 1][c as int]);
            if marks_token(board[r][c]) && !marks_token(board[r + 1][c]) {
                return false;
            }
        }
    }
    true
}

} // verus!
