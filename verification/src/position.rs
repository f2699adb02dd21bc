use vstd::prelude::*;
use vstd::arithmetic::power2::{lemma2_to64_rest, lemma_pow2_pos, lemma_pow2_unfold, pow2};
use crate::board::{
    is_board, is_stacked, is_token, lemma_stacked_column, lemma_tokens_in_column_bound,
    tokens_in_column,
};
use crate::game::{Player, COLS, ROWS};

verus! {

/// A position of the game, as mathematics sees it: every column is the stack
/// of the tokens dropped into it, the bottom token first.
#[verifier::ext_equal]
pub struct Position {
    pub columns: Seq<Seq<Player>>,
}

/// The cell with row-major number `k` of a grid.
pub open spec fn cell_at(grid: Seq<Seq<bool>>, k: int) -> bool {
    grid[k / (COLS as int)][k % (COLS as int)]
}

/// The sum of `2^k` over the marked cells with row-major number `k < n`.
pub open spec fn grid_weight(grid: Seq<Seq<bool>>, n: nat) -> nat
    decreases n,
{
    if n == 0 {
        0
    } else {
        let k = (n - 1) as nat;
        grid_weight(grid, k) + if cell_at(grid, k as int) { pow2(k) } else { 0 }
    }
}

/// The sum of the two fingerprints that a cache key holds.
pub open spec fn key_mass(key: u128) -> int {
    key / 0x1_0000_0000_0000_0000 + key % 0x1_0000_0000_0000_0000
}

/// The sum of the lengths of the first `n` columns.
pub open spec fn stacked_tokens(columns: Seq<Seq<Player>>, n: nat) -> nat
    decreases n,
{
    if n == 0 {
        0
    } else {
        stacked_tokens(columns, (n - 1) as nat) + columns[n - 1].len()
    }
}

impl Position {
    /// A position has `COLS` columns and none is higher than `ROWS`.
    pub open spec fn wf(self) -> bool {
        &&& self.columns.len() == COLS
        &&& forall|c: int| 0 <= c < COLS ==> (#[trigger] self.columns[c]).len() <= ROWS
    }

    /// The position that a raw board shows: every column holds as many
    /// tokens as the board counts in it, and the sides are read from the
    /// lowest cells of the column.
    pub open spec fn of_board(m: Seq<Seq<u32>>) -> Position {
        Position {
            columns: Seq::new(
                COLS as nat,
                |c: int|
                    Seq::new(
                        tokens_in_column(m, c, ROWS as nat),
                        |i: int|
                            if m[ROWS - 1 - i][c] == Player::AI.marker() {
                                Player::AI
                            } else {
                                Player::HUMAN
                            },
                    ),
            ),
        }
    }

    /// Number of tokens in column `c`.
    pub open spec fn height(self, c: int) -> nat {
        self.columns[c].len()
    }

    /// Number of tokens on the board.
    pub open spec fn tokens(self) -> nat {
        stacked_tokens(self.columns, COLS as nat)
    }

    /// Whether the cell in row `r` (from the top) and column `c` holds a token
    /// of `side`. Cells off the board hold nothing.
    pub open spec fn occupied(self, side: Player, r: int, c: int) -> bool {
        &&& 0 <= r < ROWS
        &&& 0 <= c < COLS
        &&& ROWS - 1 - r < self.columns[c].len()
        &&& self.columns[c][ROWS - 1 - r] == side
    }

    /// The occupancy grid of `side`.
    pub open spec fn grid(self, side: Player) -> Seq<Seq<bool>> {
        Seq::new(ROWS as nat, |r: int| Seq::new(COLS as nat, |c: int| self.occupied(side, r, c)))
    }

    /// The position after `side` drops a token into column `c`.
    pub open spec fn drop(self, side: Player, c: int) -> Position {
        Position { columns: self.columns.update(c, self.columns[c].push(side)) }
    }

    /// The position after the top token of column `c` is taken away.
    pub open spec fn lift(self, c: int) -> Position {
        Position { columns: self.columns.update(c, self.columns[c].drop_last()) }
    }

    /// The side of the top token of column `c`.
    pub open spec fn top(self, c: int) -> Player {
        self.columns[c].last()
    }

    /// The row in which the next token of column `c` comes to rest.
    pub open spec fn landing_row(self, c: int) -> int {
        ROWS - 1 - self.height(c)
    }

    /// Whether `side` holds the cell `(r, c)` and the next three in direction
    /// `(dr, dc)`.
    pub open spec fn four_from(self, side: Player, r: int, c: int, dr: int, dc: int) -> bool {
        &&& self.occupied(side, r, c)
        &&& self.occupied(side, r + dr, c + dc)
        &&& self.occupied(side, r + 2 * dr, c + 2 * dc)
        &&& self.occupied(side, r + 3 * dr, c + 3 * dc)
    }

    /// Whether a run of four of `side` starts at `(r, c)` and goes to the
    /// right, down, down and right, or up and right.
    pub open spec fn wins_at(self, side: Player, r: int, c: int) -> bool {
        ||| self.four_from(side, r, c, 0, 1)
        ||| self.four_from(side, r, c, 1, 0)
        ||| self.four_from(side, r, c, 1, 1)
        ||| self.four_from(side, r, c, -1, 1)
    }

    /// Whether `side` has four in a row anywhere on the board.
    pub open spec fn has_four(self, side: Player) -> bool {
        exists|r: int, c: int| 0 <= r < ROWS && 0 <= c < COLS && #[trigger] self.wins_at(side, r, c)
    }

    /// The fingerprint of `side`: the sum of `2^(r * COLS + c)` over its cells.
    pub open spec fn fingerprint(self, side: Player) -> nat {
        grid_weight(self.grid(side), (ROWS * COLS) as nat)
    }

    /// The key of the position in the transposition cache: both fingerprints
    /// in one number, that of `AI` in the upper 64 bits.
    pub open spec fn key(self) -> u128 {
        (self.fingerprint(Player::AI) * 0x1_0000_0000_0000_0000 + self.fingerprint(
            Player::HUMAN,
        )) as u128
    }
}

/// The weight of the first `n` cells is below `2^n`.
pub proof fn lemma_grid_weight_bound(grid: Seq<Seq<bool>>, n: nat)
    ensures
        grid_weight(grid, n) < pow2(n),
    decreases n,
{
    if n == 0 {
        lemma_pow2_pos(0);
    } else {
        lemma_grid_weight_bound(grid, (n - 1) as nat);
        lemma_pow2_unfold(n);
    }
}

/// Grids that agree on the first `n` cells weigh the same there.
pub proof fn lemma_grid_weight_same(g1: Seq<Seq<bool>>, g2: Seq<Seq<bool>>, n: nat)
    requires
        forall|i: int| 0 <= i < n ==> cell_at(g1, i) == cell_at(g2, i),
    ensures
        grid_weight(g1, n) == grid_weight(g2, n),
    decreases n,
{
    if n > 0 {
        lemma_grid_weight_same(g1, g2, (n - 1) as nat);
    }
}

/// Grids of the same weight agree on every cell that was weighed: the weight
/// is the binary numeral of the cells.
pub proof fn lemma_grid_weight_tells_cells(g1: Seq<Seq<bool>>, g2: Seq<Seq<bool>>, n: nat)
    requires
        grid_weight(g1, n) == grid_weight(g2, n),
    ensures
        forall|k: int| 0 <= k < n ==> cell_at(g1, k) == cell_at(g2, k),
    decreases n,
{
    if n > 0 {
        let k = (n - 1) as nat;
        lemma_grid_weight_bound(g1, k);
        lemma_grid_weight_bound(g2, k);
        lemma_grid_weight_tells_cells(g1, g2, k);
    }
}

/// Marking the cell `k` adds `2^k` to the weight of every prefix that holds it.
pub proof fn lemma_grid_weight_mark(g1: Seq<Seq<bool>>, g2: Seq<Seq<bool>>, k: nat, n: nat)
    requires
        forall|i: int| 0 <= i < n && i != k ==> cell_at(g1, i) == cell_at(g2, i),
        !cell_at(g1, k as int),
        cell_at(g2, k as int),
    ensures
        grid_weight(g2, n) == grid_weight(g1, n) + if k < n { pow2(k) } else { 0 },
    decreases n,
{
    if n > 0 {
        lemma_grid_weight_mark(g1, g2, k, (n - 1) as nat);
    }
}

/// Columns of at most `ROWS` tokens hold at most `n * ROWS` tokens in the
/// first `n` of them.
pub proof fn lemma_stacked_tokens_bound(columns: Seq<Seq<Player>>, n: nat)
    requires
        n <= columns.len(),
        forall|c: int| 0 <= c < columns.len() ==> (#[trigger] columns[c]).len() <= ROWS,
    ensures
        stacked_tokens(columns, n) <= n * ROWS,
    decreases n,
{
    if n > 0 {
        lemma_stacked_tokens_bound(columns, (n - 1) as nat);
    }
}

/// Full columns hold `n * ROWS` tokens in the first `n` of them.
pub proof fn lemma_stacked_tokens_full(columns: Seq<Seq<Player>>, n: nat)
    requires
        n <= columns.len(),
        forall|c: int| 0 <= c < columns.len() ==> (#[trigger] columns[c]).len() == ROWS,
    ensures
        stacked_tokens(columns, n) == n * ROWS,
    decreases n,
{
    if n > 0 {
        lemma_stacked_tokens_full(columns, (n - 1) as nat);
    }
}

/// Replacing the column `c` changes the count by the change of its length.
pub proof fn lemma_stacked_tokens_update(
    columns: Seq<Seq<Player>>,
    c: int,
    stack: Seq<Player>,
    n: nat,
)
    requires
        0 <= c < columns.len(),
        n <= columns.len(),
    ensures
        stacked_tokens(columns.update(c, stack), n) == stacked_tokens(columns, n) + if c < n {
            stack.len() - columns[c].len()
        } else {
            0
        },
    decreases n,
{
    if n > 0 {
        lemma_stacked_tokens_update(columns, c, stack, (n - 1) as nat);
    }
}

impl Position {
    /// The board never holds more than `ROWS * COLS` tokens, and no column
    /// more than `ROWS`.
    pub proof fn lemma_height_bound(self)
        requires
            self.wf(),
        ensures
            forall|c: int| 0 <= c < COLS ==> 0 <= #[trigger] self.height(c) <= ROWS,
            self.tokens() <= ROWS * COLS,
    {
        lemma_stacked_tokens_bound(self.columns, COLS as nat);
    }

    /// What a drop changes: one column grows by one token, which comes to
    /// rest in the landing row; lifting it again gives the position back.
    pub proof fn lemma_drop(self, side: Player, c: int)
        requires
            self.wf(),
            0 <= c < COLS,
            self.height(c) < ROWS,
        ensures
            self.drop(side, c).wf(),
            self.drop(side, c).height(c) == self.height(c) + 1,
            self.drop(side, c).top(c) == side,
            forall|d: int|
                0 <= d < COLS && d != c ==> self.drop(side, c).columns[d] == self.columns[d],
            self.drop(side, c).tokens() == self.tokens() + 1,
            self.drop(side, c).lift(c) == self,
            forall|s: Player, r: int, d: int| #[trigger]
                self.drop(side, c).occupied(s, r, d) <==> self.occupied(s, r, d) || (s == side && r
                    == self.landing_row(c) && d == c),
            forall|s: Player| !#[trigger] self.occupied(s, self.landing_row(c), c),
    {
        let after = self.drop(side, c);
        lemma_stacked_tokens_update(self.columns, c, self.columns[c].push(side), COLS as nat);
        assert(after.columns[c].drop_last() =~= self.columns[c]);
        assert(after.lift(c).columns =~= self.columns);
        assert forall|s: Player, r: int, d: int| #[trigger]
            after.occupied(s, r, d) <==> self.occupied(s, r, d) || (s == side && r
                == self.landing_row(c) && d == c) by {
            if 0 <= r < ROWS && 0 <= d < COLS {
                if d != c {
                    assert(after.columns[d] == self.columns[d]);
                }
            }
        }
    }

    /// What a lift changes: it undoes the drop of the top token.
    pub proof fn lemma_lift(self, c: int)
        requires
            self.wf(),
            0 <= c < COLS,
            self.height(c) > 0,
        ensures
            self.lift(c).wf(),
            self.lift(c).height(c) == self.height(c) - 1,
            self.lift(c).height(c) < ROWS,
            self.lift(c).drop(self.top(c), c) == self,
    {
        let before = self.lift(c);
        assert(before.columns[c].push(self.top(c)) =~= self.columns[c]);
        assert(before.drop(self.top(c), c).columns =~= self.columns);
    }

    /// A drop adds `2^(r * COLS + c)` to the fingerprint of the side that
    /// dropped, `r` being the landing row, and leaves the other fingerprint.
    pub proof fn lemma_drop_fingerprint(self, side: Player, c: int)
        requires
            self.wf(),
            0 <= c < COLS,
            self.height(c) < ROWS,
        ensures
            self.drop(side, c).fingerprint(side) == self.fingerprint(side) + pow2(
                (self.landing_row(c) * COLS + c) as nat,
            ),
            self.drop(side, c).fingerprint(side.other()) == self.fingerprint(side.other()),
    {
        let after = self.drop(side, c);
        let k = self.landing_row(c) * COLS + c;
        self.lemma_drop(side, c);
        assert(k / (COLS as int) == self.landing_row(c) && k % (COLS as int) == c);
        assert forall|i: int| 0 <= i < ROWS * COLS && i != k implies cell_at(self.grid(side), i)
            == cell_at(after.grid(side), i) by {
            let r = i / (COLS as int);
            let d = i % (COLS as int);
            assert(after.occupied(side, r, d) <==> self.occupied(side, r, d));
        }
        assert(!cell_at(self.grid(side), k)) by {
            assert(!self.occupied(side, self.landing_row(c), c));
        }
        assert(cell_at(after.grid(side), k)) by {
            assert(after.occupied(side, self.landing_row(c), c));
        }
        lemma_grid_weight_mark(self.grid(side), after.grid(side), k as nat, (ROWS * COLS) as nat);
        assert forall|i: int| 0 <= i < ROWS * COLS implies cell_at(self.grid(side.other()), i)
            == cell_at(after.grid(side.other()), i) by {
            let r = i / (COLS as int);
            let d = i % (COLS as int);
            assert(after.occupied(side.other(), r, d) <==> self.occupied(side.other(), r, d));
        }
        lemma_grid_weight_same(
            self.grid(side.other()),
            after.grid(side.other()),
            (ROWS * COLS) as nat,
        );
    }

    /// The position of a stacked board holds exactly the tokens of the
    /// board, each in its cell.
    pub proof fn lemma_of_board(m: Seq<Seq<u32>>)
        requires
            is_board(m),
            is_stacked(m),
        ensures
            Position::of_board(m).wf(),
            forall|side: Player, r: int, c: int|
                0 <= r < ROWS && 0 <= c < COLS ==> (#[trigger] Position::of_board(m).occupied(
                    side,
                    r,
                    c,
                ) <==> m[r][c] == side.marker()),
    {
        let pos = Position::of_board(m);
        assert forall|c: int| 0 <= c < COLS implies (#[trigger] pos.columns[c]).len() <= ROWS by {
            lemma_tokens_in_column_bound(m, c, ROWS as nat);
        }
        assert forall|side: Player, r: int, c: int| 0 <= r < ROWS && 0 <= c < COLS implies (
        #[trigger] pos.occupied(side, r, c) <==> m[r][c] == side.marker()) by {
            lemma_stacked_column(m, c);
            assert(is_token(m[r][c]) <==> r >= ROWS - tokens_in_column(m, c, ROWS as nat));
        }
    }

    /// The key of a position holds its two fingerprints, and its mass is
    /// their sum.
    pub proof fn lemma_key(self)
        ensures
            self.key() == self.fingerprint(Player::AI) * 0x1_0000_0000_0000_0000 + self.fingerprint(
                Player::HUMAN,
            ),
            key_mass(self.key()) == self.fingerprint(Player::AI) + self.fingerprint(Player::HUMAN),
    {
        self.lemma_fingerprint_bound(Player::AI);
        self.lemma_fingerprint_bound(Player::HUMAN);
    }

    /// Positions with the same tokens in the same cells are the same.
    pub proof fn lemma_cells_tell_position(self, other: Position)
        requires
            self.wf(),
            other.wf(),
            forall|side: Player, r: int, c: int|
                0 <= r < ROWS && 0 <= c < COLS ==> (#[trigger] self.occupied(side, r, c)
                    <==> other.occupied(side, r, c)),
        ensures
            self == other,
    {
        assert forall|c: int| 0 <= c < COLS implies #[trigger] self.columns[c]
            =~= other.columns[c] by {
            let mine = self.columns[c];
            let theirs = other.columns[c];
            if mine.len() < theirs.len() {
                let r = ROWS - 1 - mine.len();
                assert(other.occupied(theirs[mine.len() as int], r, c));
                assert(!self.occupied(theirs[mine.len() as int], r, c));
            }
            if theirs.len() < mine.len() {
                let r = ROWS - 1 - theirs.len();
                assert(self.occupied(mine[theirs.len() as int], r, c));
                assert(!other.occupied(mine[theirs.len() as int], r, c));
            }
            assert forall|i: int| 0 <= i < mine.len() implies mine[i] == theirs[i] by {
                assert(self.occupied(mine[i], ROWS - 1 - i, c));
                assert(other.occupied(mine[i], ROWS - 1 - i, c));
            }
        }
        assert(self.columns =~= other.columns);
    }

    /// The key tells the position: no two positions share a key, so the
    /// cache never takes one position for another.
    pub proof fn lemma_key_tells_position(self, other: Position)
        requires
            self.wf(),
            other.wf(),
            self.key() == other.key(),
        ensures
            self == other,
    {
        self.lemma_key();
        other.lemma_key();
        self.lemma_fingerprint_bound(Player::AI);
        self.lemma_fingerprint_bound(Player::HUMAN);
        other.lemma_fingerprint_bound(Player::AI);
        other.lemma_fingerprint_bound(Player::HUMAN);
        assert(self.fingerprint(Player::AI) == other.fingerprint(Player::AI));
        assert(self.fingerprint(Player::HUMAN) == other.fingerprint(Player::HUMAN));
        assert forall|side: Player, r: int, c: int| 0 <= r < ROWS && 0 <= c < COLS implies (
        #[trigger] self.occupied(side, r, c) <==> other.occupied(side, r, c)) by {
            lemma_grid_weight_tells_cells(
                self.grid(side),
                other.grid(side),
                (ROWS * COLS) as nat,
            );
            let k = r * COLS + c;
            assert(k / (COLS as int) == r && k % (COLS as int) == c);
            assert(cell_at(self.grid(side), k) == cell_at(other.grid(side), k));
        }
        self.lemma_cells_tell_position(other);
    }

    /// A drop makes the key heavier.
    pub proof fn lemma_drop_key(self, side: Player, c: int)
        requires
            self.wf(),
            0 <= c < COLS,
            self.height(c) < ROWS,
        ensures
            key_mass(self.drop(side, c).key()) > key_mass(self.key()),
    {
        self.lemma_key();
        self.drop(side, c).lemma_key();
        self.lemma_drop_fingerprint(side, c);
        lemma_pow2_pos((self.landing_row(c) * COLS + c) as nat);
    }

    /// A board whose columns are all full holds `ROWS * COLS` tokens.
    pub proof fn lemma_full_board(self)
        requires
            self.wf(),
            forall|c: int| 0 <= c < COLS ==> #[trigger] self.height(c) >= ROWS,
        ensures
            self.tokens() == ROWS * COLS,
    {
        assert forall|c: int| 0 <= c < self.columns.len() implies (#[trigger] self.columns[c]).len()
            == ROWS by {
            assert(self.height(c) >= ROWS);
        }
        lemma_stacked_tokens_full(self.columns, COLS as nat);
    }

    /// Every fingerprint is below `2^(ROWS * COLS)`.
    pub proof fn lemma_fingerprint_bound(self, side: Player)
        ensures
            self.fingerprint(side) < 0x400_0000_0000,
    {
        lemma_grid_weight_bound(self.grid(side), (ROWS * COLS) as nat);
        lemma2_to64_rest();
    }
}

} // verus!
