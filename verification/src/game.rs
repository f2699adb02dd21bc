use vstd::prelude::*;
use vstd::arithmetic::power2::{
    lemma2_to64, lemma2_to64_rest, lemma_pow2_strictly_increases, lemma_pow2_unfold, pow2,
};
use std::collections::HashMap;
use crate::order::{column_order, lemma_visit_permutes, place_of, visit};
use crate::board::{
    is_board, is_stacked, is_token, lemma_tokens_in_column_bound, tokens_in_column,
};
use crate::position::{cell_at, grid_weight, key_mass, lemma_grid_weight_bound, Position};
use crate::search::{
    cache_after, column_scores, evaluate, grows_above, lemma_evaluate_grows, lost_score,
    move_score, mover, settle, sweep, worst_score,
};

verus! {

/// Number of rows of the board.
pub const ROWS: usize = 6;

/// Number of columns of the board.
pub const COLS: usize = 7;

/// Length of a winning run.
pub const WIN: usize = 4;

/// One occupancy grid: `board[r][c]` tells whether the cell in row `r`
/// (counted from the top) and column `c` holds a token of the grid's side.
pub type Board = [[bool; COLS]; ROWS];

/// Number of tokens in every column.
pub type Heights = [usize; COLS];

/// The transposition cache: the score of a position under its key.
pub type TranspositionTable = HashMap<u128, i8>;

/// The grid that an occupancy board stands for.
pub open spec fn grid_of(board: Board) -> Seq<Seq<bool>> {
    Seq::new(ROWS as nat, |r: int| board[r]@)
}

/// The two sides of the game.
#[derive(Clone, Copy, Debug)]
pub enum Player {
    AI,
    HUMAN,
}

impl Player {
    /// The other side.
    pub open spec fn other(self) -> Player {
        match self {
            Player::AI => Player::HUMAN,
            Player::HUMAN => Player::AI,
        }
    }

    /// The marker that stands for this side in a raw board.
    pub open spec fn marker(self) -> u32 {
        match self {
            Player::AI => 0,
            Player::HUMAN => 1,
        }
    }

    /// gets the token value for the specified Player
    pub fn token(self) -> (t: u32)
        ensures
            t == self.marker(),
    {
        return match self {
            Player::AI => { 0 }
            Player::HUMAN => { 1 }
        };
    }
}

/// Game structure
pub struct Game {
    pub ai: Board,
    pub hum: Board,
    pub heights: Heights,
    col_order: Heights,
    transposition_table: TranspositionTable,
    hash: (u64, u64),
    two_powers_table: HashMap<u8, u64>,
}

impl Game {
    /// The position that the game stands for: column `c` holds
    /// `heights[c]` tokens, whose sides are read from the grid of `AI`.
    #[verifier::opaque]
    pub closed spec fn view(&self) -> Position {
        Position {
            columns: Seq::new(
                COLS as nat,
                |c: int|
                    Seq::new(
                        self.heights[c] as nat,
                        |i: int|
                            if self.ai[ROWS - 1 - i][c] {
                                Player::AI
                            } else {
                                Player::HUMAN
                            },
                    ),
            ),
        }
    }

    /// The occupancy grid of `side`.
    pub closed spec fn grid(&self, side: Player) -> Seq<Seq<bool>> {
        match side {
            Player::AI => grid_of(self.ai),
            Player::HUMAN => grid_of(self.hum),
        }
    }

    /// The number of tokens in every column.
    pub closed spec fn fill_counts(&self) -> Seq<usize> {
        self.heights@
    }

    /// The position hash: the fingerprint of `AI`, then that of `HUMAN`.
    pub closed spec fn fingerprints(&self) -> (u64, u64) {
        self.hash
    }

    /// The contents of the transposition cache.
    pub closed spec fn cache(&self) -> Map<u128, i8> {
        self.transposition_table@
    }

    /// The order in which a search visits the columns.
    pub closed spec fn visiting_order(&self) -> Seq<usize> {
        self.col_order@
    }

    /// The two games have the same grids, fill counts and hash.
    pub open spec fn same_board(&self, other: &Game) -> bool {
        &&& self.grid(Player::AI) == other.grid(Player::AI)
        &&& self.grid(Player::HUMAN) == other.grid(Player::HUMAN)
        &&& self.fill_counts() == other.fill_counts()
        &&& self.fingerprints() == other.fingerprints()
    }

    /// The game is well formed: no column is over-full, the two grids hold
    /// exactly the tokens of the position (so no cell is taken twice and the
    /// tokens of a column lie on one another from the bottom row up), the
    /// hash holds the two fingerprints, and the tables made at construction
    /// are intact.
    #[verifier::opaque]
    pub closed spec fn wf(&self) -> bool {
        &&& self@.wf()
        &&& grid_of(self.ai) == self@.grid(Player::AI)
        &&& grid_of(self.hum) == self@.grid(Player::HUMAN)
        &&& self.hash.0 == self@.fingerprint(Player::AI)
        &&& self.hash.1 == self@.fingerprint(Player::HUMAN)
        &&& forall|j: int| 0 <= j < COLS ==> #[trigger] self.col_order[j] == visit(j)
        &&& forall|k: int|
            0 <= k < ROWS * COLS ==> #[trigger] self.two_powers_table@.contains_key(k as u8) && (
            self.two_powers_table@[k as u8] == pow2(k as nat))
    }
}

impl Game {
    /// Builds the game that a raw board shows, with an empty cache: a cell
    /// belongs to the side whose marker it holds, and any other marker
    /// leaves it empty. The game is well formed exactly if the tokens of the
    /// board lie on one another.
    pub fn new(matrix: Vec<Vec<u32>>) -> (game: Game)
        requires
            is_board(matrix.deep_view()),
        ensures
            game.cache() == Map::<u128, i8>::empty(),
            game@ == Position::of_board(matrix.deep_view()),
            forall|side: Player, r: int, c: int|
                0 <= r < ROWS && 0 <= c < COLS ==> #[trigger] game.grid(side)[r][c] == (
                matrix.deep_view()[r][c] == side.marker()),
            forall|c: int|
                0 <= c < COLS ==> #[trigger] game.fill_counts()[c] == tokens_in_column(
                    matrix.deep_view(),
                    c,
                    ROWS as nat,
                ),
            game.fingerprints().0 == grid_weight(game.grid(Player::AI), (ROWS * COLS) as nat),
            game.fingerprints().1 == grid_weight(game.grid(Player::HUMAN), (ROWS * COLS) as nat),
            game.wf() <==> is_stacked(matrix.deep_view()),
    {
        let ghost m = matrix.deep_view();
        let mut hum: Board = [[false; COLS]; ROWS];
        let mut ai: Board = [[false; COLS]; ROWS];
        let mut heights: Heights = [0usize; COLS];

        // generate bit boards
        for r in 0..ROWS
            invariant
                m == matrix.deep_view(),
                is_board(m),
                counts(heights, m, r as int, 0),
                copies(ai, m, Player::AI, r as int, 0),
                copies(hum, m, Player::HUMAN, r as int, 0),
        {
            for c in 0..COLS
                invariant
                    r < ROWS,
                    m == matrix.deep_view(),
                    is_board(m),
                    counts(heights, m, r as int, c as int),
                    copies(ai, m, Player::AI, r as int, c as int),
                    copies(hum, m, Player::HUMAN, r as int, c as int),
            {
                proof {
                    lemma_tokens_in_column_bound(m, c as int, r as nat);
                    assert(matrix@[r as int]@[c as int] == m[r as int][c as int]);
                }
                hum[r][c] = false;
                ai[r][c] = false;

                if matrix[r][c] == Player::AI.token() {
                    heights[c] += 1;
                    ai[r][c] = true;
                } else if matrix[r][c] == Player::HUMAN.token() {
                    heights[c] += 1;
                    hum[r][c] = true;
                }
            }
        }

        // initialize the column exploration order, starting with center columns
        let col_order: [usize; COLS] = column_order();

        let transposition_table: TranspositionTable = HashMap::new();

        // calculate initial hash
        let hash = (Game::hash_board(&ai), Game::hash_board(&hum));

        // initialize two powers table
        let mut two_powers_table: HashMap<u8, u64> = HashMap::new();
        let mut latest: u64 = 1;
        proof {
            lemma2_to64();
        }
        for i in 0..(ROWS * COLS)
            invariant
                latest == pow2(i as nat),
                forall|k: int|
                    0 <= k < i ==> #[trigger] two_powers_table@.contains_key(k as u8) && (
                    two_powers_table@[k as u8] == pow2(k as nat)),
        {
            proof {
                lemma_pow2_unfold((i + 1) as nat);
                lemma_pow2_strictly_increases((i + 1) as nat, 63);
                lemma2_to64_rest();
            }
            let ghost filled = two_powers_table@;
            two_powers_table.insert(i as u8, latest);
            proof {
                assert forall|k: int| 0 <= k < i + 1 implies #[trigger] two_powers_table@.contains_key(
                    k as u8,
                ) && (two_powers_table@[k as u8] == pow2(k as nat)) by {
                    if k < i {
                        assert(filled.contains_key(k as u8));
                        assert(k as u8 != i as u8);
                    }
                }
            }
            latest *= 2;
        }

        let game = Game {
            ai,
            hum,
            heights,
            col_order,
            transposition_table,
            hash,
            two_powers_table,
        };
        proof {
            game.lemma_built(m);
        }
        game
    }

    /// The weight of a board: the sum of `2^(r * COLS + c)` over its cells.
    pub fn hash_board(board: &Board) -> (sum: u64)
        ensures
            sum == grid_weight(grid_of(*board), (ROWS * COLS) as nat),
    {
        let mut sum: u64 = 0;

        let mut p: u64 = 1;
        proof {
            lemma2_to64();
        }
        for i in 0..ROWS
            invariant
                p == pow2((i * COLS) as nat),
                sum == grid_weight(grid_of(*board), (i * COLS) as nat),
        {
            for j in 0..COLS
                invariant
                    i < ROWS,
                    p == pow2((i * COLS + j) as nat),
                    sum == grid_weight(grid_of(*board), (i * COLS + j) as nat),
            {
                proof {
                    let k = (i * COLS + j) as nat;
                    lemma_grid_weight_bound(grid_of(*board), k);
                    lemma_pow2_unfold(k + 1);
                    lemma_pow2_strictly_increases(k + 1, 63);
                    lemma2_to64_rest();
                    assert(k as int / (COLS as int) == i && k as int % (COLS as int) == j);
                    assert(cell_at(grid_of(*board), k as int) == board[i as int][j as int]);
                }
                sum += match board[i][j] {
                    true => { 1 }
                    false => { 0 }
                } * p;
                p *= 2;
            }
        }

        sum
    }

    /// insert token at column
    ///
    /// # Arguments
    /// * `col` column to insert at
    pub fn insert(&mut self, player: &Player, col: usize) -> (inserted: bool)
        requires
            old(self).wf(),
            col < COLS,
        ensures
            final(self).wf(),
            final(self).cache() == old(self).cache(),
            inserted == (old(self)@.height(col as int) < ROWS),
            inserted ==> final(self)@ == old(self)@.drop(*player, col as int),
            !inserted ==> *final(self) == *old(self),
    {
        proof {
            self.lemma_cells();
            self.lemma_tables();
            self@.lemma_fingerprint_bound(Player::AI);
            self@.lemma_fingerprint_bound(Player::HUMAN);
        }
        let board = match player {
            Player::AI => { &mut self.ai }
            Player::HUMAN => { &mut self.hum }
        };

        // check if the column is full, otherwise insert was impossible
        if self.heights[col] == ROWS {
            return false;
        }
        // update board and heights
        board[ROWS - self.heights[col] - 1][col] = true;
        self.heights[col] += 1;

        // update hash
        let num = ((ROWS - self.heights[col]) * COLS + col) as u8;
        let cur_ai = self.hash.0;
        let cur_hum = self.hash.1;
        proof {
            old(self).lemma_power(num);
        }
        match player {
            Player::AI => {
                self.hash = (cur_ai + *self.two_powers_table.get(&num).unwrap(), cur_hum)
            }
            Player::HUMAN => {
                self.hash = (cur_ai, cur_hum + *self.two_powers_table.get(&num).unwrap())
            }
        }
        proof {
            lemma_token_placed(old(self), self, *player, col as int);
        }

        true
    }

    /// remove top token at column
    ///
    /// # Arguments
    /// * `player` specified Player
    /// * `col` column to remove at
    pub fn remove(&mut self, player: &Player, col: usize)
        requires
            old(self).wf(),
            col < COLS,
            old(self)@.height(col as int) > 0,
            old(self)@.top(col as int) == *player,
        ensures
            final(self).wf(),
            final(self).cache() == old(self).cache(),
            final(self)@ == old(self)@.lift(col as int),
    {
        proof {
            self.lemma_cells();
            self.lemma_tables();
            self@.lemma_lift(col as int);
            self@.lift(col as int).lemma_drop_fingerprint(*player, col as int);
        }
        let board = match player {
            Player::AI => { &mut self.ai }
            Player::HUMAN => { &mut self.hum }
        };

        // update hash
        let num = ((ROWS - self.heights[col]) * COLS + col) as u8;
        let cur_ai = self.hash.0;
        let cur_hum = self.hash.1;
        proof {
            old(self).lemma_power(num);
        }
        match player {
            Player::AI => {
                self.hash = (cur_ai - *self.two_powers_table.get(&num).unwrap(), cur_hum)
            }
            Player::HUMAN => {
                self.hash = (cur_ai, cur_hum - *self.two_powers_table.get(&num).unwrap())
            }
        }

        self.heights[col] -= 1;
        board[ROWS - self.heights[col] - 1][col] = false;
        proof {
            lemma_token_taken(self, old(self), *player, col as int);
        }
    }

    /// checks winner for specified player
    ///
    /// # Arguments
    /// * `player` player to check
    pub fn check_winner(&mut self, player: &Player) -> (won: bool)
        requires
            old(self).wf(),
        ensures
            *final(self) == *old(self),
            won == old(self)@.has_four(*player),
    {
        proof {
            self.lemma_cells();
        }
        let ghost pos = self@;
        let ghost side = *player;
        let board = match player {
            Player::AI => { &self.ai }
            Player::HUMAN => { &self.hum }
        };
        assert(shows(board, pos, side));

        for r in 0..ROWS
            invariant
                *self == *old(self),
                pos == self@,
                side == *player,
                shows(board, pos, side),
                forall|p: int, q: int|
                    0 <= p < r && 0 <= q < COLS ==> !#[trigger] pos.wins_at(side, p, q),
        {
            for c in 0..COLS
                invariant
                    r < ROWS,
                    *self == *old(self),
                    pos == self@,
                    side == *player,
                    shows(board, pos, side),
                    forall|p: int, q: int|
                        0 <= p < r && 0 <= q < COLS ==> !#[trigger] pos.wins_at(side, p, q),
                    forall|q: int| 0 <= q < c ==> !#[trigger] pos.wins_at(side, r as int, q),
            {
                if !((r > ROWS - WIN && c > COLS - WIN) || !board[r][c]) {
                    let mut ct: usize = 1;

                    // check right
                    if c <= COLS - WIN {
                        for i in 1..WIN
                            invariant_except_break
                                ct == i,
                            invariant
                                r < ROWS,
                                c <= COLS - WIN,
                                shows(board, pos, side),
                                1 <= ct <= WIN,
                                run_of(pos, side, r as int, c as int, 0, 1, ct as int),
                            ensures
                                ct == WIN || !pos.occupied(side, r as int, c + ct),
                        {
                            if !board[r][c + i] {
                                break;
                            }
                            ct += 1;
                        }

                        if ct == WIN {
                            assert(pos.wins_at(side, r as int, c as int));
                            return true;
                        }
                    }
                    assert(!pos.four_from(side, r as int, c as int, 0, 1));

                    // check down
                    if r <= ROWS - WIN {
                        ct = 1;
                        for i in 1..WIN
                            invariant_except_break
                                ct == i,
                            invariant
                                r <= ROWS - WIN,
                                c < COLS,
                                shows(board, pos, side),
                                1 <= ct <= WIN,
                                run_of(pos, side, r as int, c as int, 1, 0, ct as int),
                            ensures
                                ct == WIN || !pos.occupied(side, r + ct, c as int),
                        {
                            if !board[r + i][c] {
                                break;
                            }
                            ct += 1;
                        }

                        if ct == WIN {
                            assert(pos.wins_at(side, r as int, c as int));
                            return true;
                        }
                    }
                    assert(!pos.four_from(side, r as int, c as int, 1, 0));

                    // check r-d diagonal
                    if r <= ROWS - WIN && c <= COLS - WIN {
                        ct = 1;
                        for i in 1..WIN
                            invariant_except_break
                                ct == i,
                            invariant
                                r <= ROWS - WIN,
                                c <= COLS - WIN,
                                shows(board, pos, side),
                                1 <= ct <= WIN,
                                run_of(pos, side, r as int, c as int, 1, 1, ct as int),
                            ensures
                                ct == WIN || !pos.occupied(side, r + ct, c + ct),
                        {
                            if !board[r + i][c + i] {
                                break;
                            }
                            ct += 1;
                        }

                        if ct == WIN {
                            assert(pos.wins_at(side, r as int, c as int));
                            return true;
                        }
                    }
                    assert(!pos.four_from(side, r as int, c as int, 1, 1));

                    // check r-u diagonal
                    if r >= (WIN - 1) && c <= COLS - WIN {
                        ct = 1;
                        for i in 1..WIN
                            invariant_except_break
                                ct == i,
                            invariant
                                WIN - 1 <= r < ROWS,
                                c <= COLS - WIN,
                                shows(board, pos, side),
                                1 <= ct <= WIN,
                                run_of(pos, side, r as int, c as int, -1, 1, ct as int),
                            ensures
                                ct == WIN || !pos.occupied(side, r - ct, c + ct),
                        {
                            if !board[r - i][c + i] {
                                break;
                            }
                            ct += 1;
                        }

                        if ct == WIN {
                            assert(pos.wins_at(side, r as int, c as int));
                            return true;
                        }
                    }
                    assert(!pos.four_from(side, r as int, c as int, -1, 1));
                }
                assert(!pos.wins_at(side, r as int, c as int));
            }
        }
        return false;
    }

    /// calculates minimax score array
    ///
    /// The cache is emptied first, so that it holds only what this search
    /// finds. Every column of the visiting order gets the score of the move
    /// of `AI` into it, a full column the worst score; the board is left as
    /// it was.
    pub fn minimax(&mut self, max_depth: u32) -> (scores: [i8; COLS])
        requires
            old(self).wf(),
        ensures
            final(self).wf(),
            final(self)@ == old(self)@,
            final(self).same_board(old(self)),
            scores@ == column_scores(old(self)@, max_depth as nat),
            forall|c: int|
                0 <= c < COLS && old(self)@.height(c) >= ROWS ==> #[trigger] scores[c] == i8::MIN,
            final(self).cache() == cache_after(old(self)@, max_depth as nat, COLS as nat),
    {
        let ghost pos = self@;
        let ghost fresh = *self;
        self.transposition_table.clear();
        proof {
            fresh.lemma_cache_apart(self);
            lemma_visit_permutes();
        }
        let mut scores: [i8; COLS] = [0i8; COLS];

        for i in 0..COLS
            invariant
                self.wf(),
                self@ == pos,
                self.cache() == cache_after(pos, max_depth as nat, i as nat),
                forall|j: int|
                    0 <= j < i ==> #[trigger] scores[visit(j)] == move_score(
                        pos,
                        max_depth as nat,
                        visit(j),
                    ),
        {
            proof {
                self.lemma_tables();
                lemma_visit_permutes();
                pos.lemma_height_bound();
            }
            let col = self.col_order[i];
            let inserted = self.insert(&Player::AI, col);
            if inserted {
                proof {
                    pos.lemma_drop(Player::AI, col as int);
                }
                // perform score calculation
                scores[col] = self.minimax_util(false, 1, max_depth, i8::MIN, i8::MAX);
                self.remove(&Player::AI, col);
            } else {
                // if not insertable, definitely don't choose this one
                scores[col] = i8::MIN;
            }
        }
        proof {
            assert forall|c: int| 0 <= c < COLS implies scores@[c] == column_scores(
                pos,
                max_depth as nat,
            )[c] by {
                assert(visit(place_of(c)) == c);
            }
            self.lemma_position_fixes_state(old(self));
        }

        scores
    }

    /// The score of the position for the side to move, `depth` plies below
    /// the root of a search that ends at `max_depth`, within the window
    /// `alpha`, `beta`. The board is left as it was; the cache gains the
    /// nodes whose children were all visited.
    ///
    /// A position found in the cache, and a node at the depth limit on which
    /// nobody has won, are answered whatever `depth` is. A lost node is
    /// scored from the plies left of `ROWS * COLS`, so `depth` must not be
    /// more than that. Where the children are visited, the depths below
    /// must stay in that range too: the depth limit is at most
    /// `ROWS * COLS`, or `depth` is at most the number of tokens on the
    /// board, as it is where it counts the plies played since the root.
    pub fn minimax_util(
        &mut self,
        maximizer: bool,
        depth: u32,
        max_depth: u32,
        alpha: i8,
        beta: i8,
    ) -> (score: i8)
        requires
            old(self).wf(),
            !old(self).cache().contains_key(old(self)@.key()) && old(self)@.has_four(
                mover(maximizer).other(),
            ) ==> depth <= ROWS * COLS,
            !old(self).cache().contains_key(old(self)@.key()) && !old(self)@.has_four(
                mover(maximizer).other(),
            ) && depth < max_depth ==> max_depth <= ROWS * COLS || depth <= old(self)@.tokens(),
        ensures
            final(self).wf(),
            final(self)@ == old(self)@,
            final(self).same_board(old(self)),
            (score, final(self).cache()) == evaluate(
                old(self)@,
                old(self).cache(),
                maximizer,
                depth as nat,
                max_depth as nat,
                alpha,
                beta,
            ),
            forall|k: u128| #[trigger]
                old(self).cache().contains_key(k) ==> final(self).cache().contains_key(k)
                    && final(self).cache()[k] == old(self).cache()[k],
        decreases max_depth - depth,
    {
        let ghost pos = self@;
        let ghost goal = evaluate(
            pos,
            self.cache(),
            maximizer,
            depth as nat,
            max_depth as nat,
            alpha,
            beta,
        );
        proof {
            self.lemma_tables();
            pos.lemma_height_bound();
            lemma_evaluate_grows(
                pos,
                self.cache(),
                maximizer,
                depth as nat,
                max_depth as nat,
                alpha,
                beta,
            );
        }
        // check if state has already been stored
        let state = self.position_key();
        if self.transposition_table.contains_key(&state) {
            return *self.transposition_table.get(&state).unwrap();
        }
        let (player, opponent) = &match maximizer {
            true => { (Player::AI, Player::HUMAN) }
            false => { (Player::HUMAN, Player::AI) }
        };

        assert(!self.cache().contains_key(pos.key()));
        assert(*player == mover(maximizer) && *opponent == mover(maximizer).other());

        // before playing current player, check if opponent has already won
        if self.check_winner(opponent) {
            assert(goal == (lost_score(maximizer, depth as nat), self.cache()));
            return (((ROWS * COLS) as u32 - depth) / 2) as i8 * if maximizer { -1 } else { 1 };
        }
        assert(!pos.has_four(mover(maximizer).other()));

        // base case
        if depth >= max_depth {
            assert(goal == (0i8, self.cache()));
            return 0;
        }
        assert(goal == settle(
            pos,
            sweep(
                pos,
                self.cache(),
                maximizer,
                depth as nat,
                max_depth as nat,
                alpha,
                beta,
                worst_score(maximizer),
                0,
            ),
        ));
        // otherwise recurse and find best score

        let mut best = if maximizer { i8::MIN } else { i8::MAX };
        let mut low = alpha;
        let mut high = beta;
        for i in 0..COLS
            invariant
                self.wf(),
                self@ == pos,
                pos == old(self)@,
                old(self).wf(),
                grows_above(old(self).cache(), goal.1, key_mass(pos.key()) - 1),
                goal == evaluate(
                    pos,
                    old(self).cache(),
                    maximizer,
                    depth as nat,
                    max_depth as nat,
                    alpha,
                    beta,
                ),
                pos.wf(),
                depth < max_depth,
                depth <= ROWS * COLS,
                max_depth <= ROWS * COLS || depth <= pos.tokens(),
                state == pos.key(),
                *player == mover(maximizer),
                goal == settle(
                    pos,
                    sweep(
                        pos,
                        self.cache(),
                        maximizer,
                        depth as nat,
                        max_depth as nat,
                        low,
                        high,
                        best,
                        i as nat,
                    ),
                ),
        {
            proof {
                self.lemma_tables();
                lemma_visit_permutes();
            }
            let col = self.col_order[i];
            let inserted = self.insert(player, col);

            // if insert wasn't possible, ignore this subtree
            if inserted {
                proof {
                    pos.lemma_drop(*player, col as int);
                    pos.drop(*player, col as int).lemma_height_bound();
                }
                let score = self.minimax_util(!maximizer, depth + 1, max_depth, low, high);

                if maximizer {
                    if score > best {
                        best = score;
                    }
                    if best > low {
                        low = best;
                    }
                    if high <= low {
                        self.remove(player, col);
                        proof {
                            self.lemma_position_fixes_state(old(self));
                        }
                        return best;
                    }
                } else {
                    if score < best {
                        best = score;
                    }
                    if best < high {
                        high = best;
                    }
                    if high <= low {
                        self.remove(player, col);
                        proof {
                            self.lemma_position_fixes_state(old(self));
                        }
                        return best;
                    }
                }
                self.remove(player, col);
            }
        }
        // store state in memory
        let ghost explored = *self;
        self.transposition_table.insert(state, best);
        proof {
            explored.lemma_cache_apart(self);
            self.lemma_position_fixes_state(old(self));
        }
        best
    }
}

impl Game {
    /// Whether the cell in row `row` (from the top) and column `col` holds a
    /// token of `player`.
    pub fn cell(&self, player: &Player, row: usize, col: usize) -> (taken: bool)
        requires
            row < ROWS,
            col < COLS,
        ensures
            taken == self.grid(*player)[row as int][col as int],
    {
        match player {
            Player::AI => self.ai[row][col],
            Player::HUMAN => self.hum[row][col],
        }
    }

    /// The number of tokens in column `col`.
    pub fn height(&self, col: usize) -> (count: usize)
        requires
            col < COLS,
        ensures
            count == self.fill_counts()[col as int],
    {
        self.heights[col]
    }

    /// The position hash: the fingerprint of `AI`, then that of `HUMAN`.
    pub fn position_hash(&self) -> (hash: (u64, u64))
        ensures
            hash == self.fingerprints(),
    {
        self.hash
    }

    /// The score that the cache holds for the position of the game, if it
    /// holds one.
    pub fn cached_score(&self) -> (score: Option<i8>)
        requires
            self.wf(),
        ensures
            score == if self.cache().contains_key(self@.key()) {
                Some(self.cache()[self@.key()])
            } else {
                None
            },
    {
        let state = self.position_key();
        match self.transposition_table.get(&state) {
            Some(score) => Some(*score),
            None => None,
        }
    }

    /// The number of positions in the cache.
    pub fn cached_positions(&self) -> (count: usize)
        ensures
            count == self.cache().len(),
    {
        self.transposition_table.len()
    }

    /// The key of the position in the cache.
    fn position_key(&self) -> (state: u128)
        requires
            self.wf(),
        ensures
            state == self@.key(),
    {
        proof {
            self.lemma_tables();
            self@.lemma_fingerprint_bound(Player::AI);
            self@.lemma_fingerprint_bound(Player::HUMAN);
        }
        (self.hash.0 as u128) * 0x1_0000_0000_0000_0000 + (self.hash.1 as u128)
    }
}

impl Game {
    /// What a well-formed game holds is read off its position: the grids
    /// are those of the two sides, the fill counts are the heights of the
    /// columns, and the hash holds the two fingerprints. Its visiting order
    /// is that of every search, from the middle column outwards.
    pub proof fn lemma_stands_for_position(&self)
        requires
            self.wf(),
        ensures
            self@.wf(),
            self.grid(Player::AI) == self@.grid(Player::AI),
            self.grid(Player::HUMAN) == self@.grid(Player::HUMAN),
            self.fill_counts().len() == COLS,
            forall|c: int| 0 <= c < COLS ==> #[trigger] self.fill_counts()[c] == self@.height(c),
            self.fingerprints().0 == self@.fingerprint(Player::AI),
            self.fingerprints().1 == self@.fingerprint(Player::HUMAN),
            self.visiting_order().len() == COLS,
            forall|j: int| 0 <= j < COLS ==> #[trigger] self.visiting_order()[j] == visit(j),
    {
        reveal(Game::wf);
        self.lemma_cells();
    }

    /// In every well-formed game no column holds more than `ROWS` tokens,
    /// and all columns together hold at most `ROWS * COLS`.
    pub proof fn lemma_height_bound(&self)
        requires
            self.wf(),
        ensures
            forall|c: int| 0 <= c < COLS ==> 0 <= #[trigger] self.fill_counts()[c] <= ROWS,
            self@.tokens() <= ROWS * COLS,
    {
        self.lemma_stands_for_position();
        self@.lemma_height_bound();
        assert forall|c: int| 0 <= c < COLS implies 0 <= #[trigger] self.fill_counts()[c]
            <= ROWS by {
            assert(self.fill_counts()[c] == self@.height(c));
        }
    }

    /// Well-formed games that stand for the same position have the same
    /// grids, fill counts and hash.
    pub proof fn lemma_position_fixes_state(&self, other: &Game)
        requires
            self.wf(),
            other.wf(),
            self@ == other@,
        ensures
            self.grid(Player::AI) == other.grid(Player::AI),
            self.grid(Player::HUMAN) == other.grid(Player::HUMAN),
            self.fill_counts() == other.fill_counts(),
            self.fingerprints() == other.fingerprints(),
    {
        self.lemma_stands_for_position();
        other.lemma_stands_for_position();
        assert(self.fill_counts() =~= other.fill_counts()) by {
            assert forall|c: int| 0 <= c < COLS implies self.fill_counts()[c]
                == other.fill_counts()[c] by {
                assert(self.fill_counts()[c] == self@.height(c));
                assert(other.fill_counts()[c] == other@.height(c));
            }
        }
    }

    /// A token that is inserted and removed again leaves the grids, the fill
    /// counts and the hash exactly as they were: `between` is the game after
    /// the insertion into `before`, `after` the game after the removal.
    pub proof fn lemma_insert_remove_restores(
        before: &Game,
        between: &Game,
        after: &Game,
        player: Player,
        col: int,
    )
        requires
            before.wf(),
            between.wf(),
            after.wf(),
            0 <= col < COLS,
            before@.height(col) < ROWS,
            between@ == before@.drop(player, col),
            after@ == between@.lift(col),
        ensures
            between@.height(col) > 0,
            between@.top(col) == player,
            after@ == before@,
            after.grid(Player::AI) == before.grid(Player::AI),
            after.grid(Player::HUMAN) == before.grid(Player::HUMAN),
            after.fill_counts() == before.fill_counts(),
            after.fingerprints() == before.fingerprints(),
    {
        before.lemma_stands_for_position();
        before@.lemma_drop(player, col);
        after.lemma_position_fixes_state(before);
    }

    /// The cells and fill counts of a well-formed game are those of its
    /// position.
    proof fn lemma_cells(&self)
        requires
            self.wf(),
        ensures
            self@.wf(),
            forall|c: int| 0 <= c < COLS ==> #[trigger] self.heights[c] == self@.height(c),
            forall|r: int, c: int|
                0 <= r < ROWS && 0 <= c < COLS ==> #[trigger] self.ai[r][c] == self@.occupied(
                    Player::AI,
                    r,
                    c,
                ),
            forall|r: int, c: int|
                0 <= r < ROWS && 0 <= c < COLS ==> #[trigger] self.hum[r][c] == self@.occupied(
                    Player::HUMAN,
                    r,
                    c,
                ),
    {
        reveal(Game::wf);
        reveal(Game::view);
        assert forall|r: int, c: int| 0 <= r < ROWS && 0 <= c < COLS implies #[trigger] self.ai[r][c]
            == self@.occupied(Player::AI, r, c) by {
            assert(self.ai[r][c] == grid_of(self.ai)[r][c]);
            assert(self@.grid(Player::AI)[r][c] == self@.occupied(Player::AI, r, c));
        }
        assert forall|r: int, c: int|
            0 <= r < ROWS && 0 <= c < COLS implies #[trigger] self.hum[r][c] == self@.occupied(
            Player::HUMAN,
            r,
            c,
        ) by {
            assert(self.hum[r][c] == grid_of(self.hum)[r][c]);
            assert(self@.grid(Player::HUMAN)[r][c] == self@.occupied(Player::HUMAN, r, c));
        }
    }

    /// The hash of a well-formed game holds the fingerprints of its position,
    /// and its column order is the visiting order.
    proof fn lemma_tables(&self)
        requires
            self.wf(),
        ensures
            self@.wf(),
            self.hash.0 == self@.fingerprint(Player::AI),
            self.hash.1 == self@.fingerprint(Player::HUMAN),
            forall|j: int| 0 <= j < COLS ==> #[trigger] self.col_order[j] == visit(j),
    {
        reveal(Game::wf);
    }

    /// The table of powers of a well-formed game holds `2^k` under every
    /// cell number `k`.
    proof fn lemma_power(&self, k: u8)
        requires
            self.wf(),
            k < ROWS * COLS,
        ensures
            self.two_powers_table@.contains_key(k),
            self.two_powers_table@[k] == pow2(k as nat),
            pow2(k as nat) < 0x400_0000_0000,
    {
        reveal(Game::wf);
        assert(self.two_powers_table@.contains_key((k as int) as u8));
        lemma_pow2_strictly_increases(k as nat, (ROWS * COLS) as nat);
        lemma2_to64_rest();
    }

    /// A game that differs from a well-formed one in its cache alone is well
    /// formed and stands for the same position.
    proof fn lemma_cache_apart(&self, other: &Game)
        requires
            self.wf(),
            other.ai == self.ai,
            other.hum == self.hum,
            other.heights == self.heights,
            other.col_order == self.col_order,
            other.hash == self.hash,
            other.two_powers_table == self.two_powers_table,
        ensures
            other.wf(),
            other@ == self@,
    {
        reveal(Game::wf);
        reveal(Game::view);
    }

    /// What `new` builds is well formed exactly where the board is stacked,
    /// and stands for the position of the board.
    proof fn lemma_built(&self, m: Seq<Seq<u32>>)
        requires
            is_board(m),
            counts(self.heights, m, ROWS as int, 0),
            copies(self.ai, m, Player::AI, ROWS as int, 0),
            copies(self.hum, m, Player::HUMAN, ROWS as int, 0),
            self.hash.0 == grid_weight(grid_of(self.ai), (ROWS * COLS) as nat),
            self.hash.1 == grid_weight(grid_of(self.hum), (ROWS * COLS) as nat),
            forall|j: int| 0 <= j < COLS ==> #[trigger] self.col_order[j] == visit(j),
            forall|k: int|
                0 <= k < ROWS * COLS ==> #[trigger] self.two_powers_table@.contains_key(k as u8) && (
                self.two_powers_table@[k as u8] == pow2(k as nat)),
        ensures
            self@ == Position::of_board(m),
            self.wf() <==> is_stacked(m),
    {
        reveal(Game::wf);
        reveal(Game::view);
        let pos = Position::of_board(m);
        assert forall|c: int| 0 <= c < COLS implies #[trigger] self@.columns[c]
            =~= pos.columns[c] by {
            lemma_tokens_in_column_bound(m, c, ROWS as nat);
        }
        assert(self@.columns =~= pos.columns);
        if is_stacked(m) {
            Position::lemma_of_board(m);
            lemma_board_of_cells(self.ai, pos, Player::AI);
            lemma_board_of_cells(self.hum, pos, Player::HUMAN);
        }
        if self.wf() {
            assert forall|r: int, c: int|
                0 <= r < ROWS - 1 && 0 <= c < COLS && is_token(#[trigger] m[r][c]) implies is_token(
                m[r + 1][c],
            ) by {
                assert(grid_of(self.ai)[r][c] == pos.occupied(Player::AI, r, c));
                assert(grid_of(self.hum)[r][c] == pos.occupied(Player::HUMAN, r, c));
                assert(grid_of(self.ai)[r + 1][c] == pos.occupied(Player::AI, r + 1, c));
                assert(grid_of(self.hum)[r + 1][c] == pos.occupied(Player::HUMAN, r + 1, c));
            }
        }
    }
}

/// The counts are those of the tokens of `m` that lie before the cell
/// `(r, c)`, row by row.
spec fn counts(heights: Heights, m: Seq<Seq<u32>>, r: int, c: int) -> bool {
    forall|q: int|
        0 <= q < COLS ==> #[trigger] heights[q] == tokens_in_column(
            m,
            q,
            if q < c {
                (r + 1) as nat
            } else {
                r as nat
            },
        )
}

/// The board holds the markers of `side` among the cells of `m` that lie
/// before the cell `(r, c)`, row by row.
spec fn copies(board: Board, m: Seq<Seq<u32>>, side: Player, r: int, c: int) -> bool {
    forall|p: int, q: int|
        (0 <= p < r && 0 <= q < COLS) || (p == r && 0 <= q < c) ==> #[trigger] board[p][q] == (
        m[p][q] == side.marker())
}

/// `laden` is `bare` with one token more in column `col`: the count of the
/// column is one higher, the hash of `player` is higher by the weight of the
/// cell in which the token lies, and nothing else differs but that cell of
/// the board of `player` and the cache.
spec fn holds_one_more(bare: &Game, laden: &Game, player: Player, col: int) -> bool {
    let row = ROWS - 1 - bare.heights[col];
    let weight = pow2((row * COLS + col) as nat);
    &&& 0 <= col < COLS
    &&& bare.heights[col] < ROWS
    &&& forall|c: int|
        0 <= c < COLS ==> #[trigger] laden.heights[c] == if c == col {
            bare.heights[c] + 1
        } else {
            bare.heights[c] as int
        }
    &&& forall|r: int, c: int|
        0 <= r < ROWS && 0 <= c < COLS && !(player == Player::AI && r == row && c == col)
            ==> #[trigger] laden.ai[r][c] == bare.ai[r][c]
    &&& forall|r: int, c: int|
        0 <= r < ROWS && 0 <= c < COLS && !(player == Player::HUMAN && r == row && c == col)
            ==> #[trigger] laden.hum[r][c] == bare.hum[r][c]
    &&& laden.hash.0 == bare.hash.0 + if player == Player::AI {
        weight
    } else {
        0
    }
    &&& laden.hash.1 == bare.hash.1 + if player == Player::HUMAN {
        weight
    } else {
        0
    }
    &&& laden.col_order == bare.col_order
    &&& laden.two_powers_table == bare.two_powers_table
}

/// The cell of the board of `player` in which the next token of column `col`
/// of `game` comes to lie, as `other` holds it.
spec fn landing_cell(game: &Game, other: &Game, player: Player, col: int) -> bool {
    match player {
        Player::AI => other.ai[ROWS - 1 - game.heights[col]][col],
        Player::HUMAN => other.hum[ROWS - 1 - game.heights[col]][col],
    }
}

/// A well-formed game with one token more, in the cell where the token
/// lands, is well formed and stands for the position after the drop.
proof fn lemma_token_placed(bare: &Game, laden: &Game, player: Player, col: int)
    requires
        bare.wf(),
        holds_one_more(bare, laden, player, col),
        landing_cell(bare, laden, player, col),
    ensures
        laden.wf(),
        laden@ == bare@.drop(player, col),
{
    reveal(Game::wf);
    reveal(Game::view);
    let before = bare@;
    let after = before.drop(player, col);
    bare.lemma_cells();
    before.lemma_drop(player, col);
    before.lemma_drop_fingerprint(player, col);
    assert forall|c: int| 0 <= c < COLS implies #[trigger] laden@.columns[c] =~= after.columns[c] by {
        if c != col {
            assert(after.columns[c] == before.columns[c]);
        }
    }
    assert(laden@.columns =~= after.columns);
    lemma_board_with_token(bare.ai, laden.ai, before, Player::AI, player, col);
    lemma_board_with_token(bare.hum, laden.hum, before, Player::HUMAN, player, col);
}

/// A well-formed game with its top token of column `col` taken away, and
/// the cell of the token cleared, is well formed and stands for the position
/// after the lift.
proof fn lemma_token_taken(bare: &Game, laden: &Game, player: Player, col: int)
    requires
        laden.wf(),
        holds_one_more(bare, laden, player, col),
        laden@.top(col) == player,
        !landing_cell(bare, bare, player, col),
    ensures
        bare.wf(),
        bare@ == laden@.lift(col),
{
    reveal(Game::wf);
    reveal(Game::view);
    let before = laden@;
    let after = before.lift(col);
    laden.lemma_cells();
    before.lemma_lift(col);
    after.lemma_drop(player, col);
    after.lemma_drop_fingerprint(player, col);
    assert forall|c: int| 0 <= c < COLS implies #[trigger] bare@.columns[c] =~= after.columns[c] by {
        if c != col {
            assert(after.columns[c] == before.columns[c]);
        }
    }
    assert(bare@.columns =~= after.columns);
    lemma_board_with_token(bare.ai, laden.ai, after, Player::AI, player, col);
    lemma_board_with_token(bare.hum, laden.hum, after, Player::HUMAN, player, col);
}

/// A board that holds exactly the cells of `side` in `pos` stands for the
/// grid of `side`.
proof fn lemma_board_of_cells(board: Board, pos: Position, side: Player)
    requires
        forall|r: int, c: int|
            0 <= r < ROWS && 0 <= c < COLS ==> #[trigger] board[r][c] == pos.occupied(side, r, c),
    ensures
        grid_of(board) == pos.grid(side),
{
    assert forall|r: int| 0 <= r < ROWS implies #[trigger] grid_of(board)[r] =~= pos.grid(side)[r] by {
        assert forall|c: int| 0 <= c < COLS implies grid_of(board)[r][c] == pos.grid(side)[r][c] by {
            assert(board[r][c] == pos.occupied(side, r, c));
        }
    }
    assert(grid_of(board) =~= pos.grid(side));
}

/// Two boards of `side` that differ at most in the cell where a token of
/// `player` lands in column `col` of `pos`, `laden` holding that token and
/// `bare` not: `bare` stands for the grid of `pos` exactly if `laden` stands
/// for the grid after the drop.
proof fn lemma_board_with_token(
    bare: Board,
    laden: Board,
    pos: Position,
    side: Player,
    player: Player,
    col: int,
)
    requires
        pos.wf(),
        0 <= col < COLS,
        pos.height(col) < ROWS,
        forall|r: int, c: int|
            0 <= r < ROWS && 0 <= c < COLS && !(side == player && r == pos.landing_row(col) && c
                == col) ==> #[trigger] laden[r][c] == bare[r][c],
        side == player ==> laden[pos.landing_row(col)][col] && !bare[pos.landing_row(col)][col],
    ensures
        grid_of(bare) == pos.grid(side) <==> grid_of(laden) == pos.drop(player, col).grid(side),
{
    let after = pos.drop(player, col);
    pos.lemma_drop(player, col);
    if grid_of(bare) == pos.grid(side) {
        assert forall|r: int, c: int| 0 <= r < ROWS && 0 <= c < COLS implies #[trigger] laden[r][c]
            == after.occupied(side, r, c) by {
            assert(bare[r][c] == grid_of(bare)[r][c]);
            assert(pos.grid(side)[r][c] == pos.occupied(side, r, c));
            assert(after.occupied(side, r, c) <==> pos.occupied(side, r, c) || (side == player && r
                == pos.landing_row(col) && c == col));
        }
        lemma_board_of_cells(laden, after, side);
    }
    if grid_of(laden) == after.grid(side) {
        assert forall|r: int, c: int| 0 <= r < ROWS && 0 <= c < COLS implies #[trigger] bare[r][c]
            == pos.occupied(side, r, c) by {
            assert(laden[r][c] == grid_of(laden)[r][c]);
            assert(after.grid(side)[r][c] == after.occupied(side, r, c));
            assert(after.occupied(side, r, c) <==> pos.occupied(side, r, c) || (side == player && r
                == pos.landing_row(col) && c == col));
            assert(!pos.occupied(side, pos.landing_row(col), col));
        }
        lemma_board_of_cells(bare, pos, side);
    }
}

/// The board holds exactly the cells of `side` in `pos`.
spec fn shows(board: &Board, pos: Position, side: Player) -> bool {
    forall|r: int, c: int|
        0 <= r < ROWS && 0 <= c < COLS ==> #[trigger] board[r][c] == pos.occupied(side, r, c)
}

/// `side` holds the first `n` cells of the run of four that starts at `(r, c)`
/// and goes in direction `(dr, dc)`.
spec fn run_of(pos: Position, side: Player, r: int, c: int, dr: int, dc: int, n: int) -> bool {
    &&& n >= 1 ==> pos.occupied(side, r, c)
    &&& n >= 2 ==> pos.occupied(side, r + dr, c + dc)
    &&& n >= 3 ==> pos.occupied(side, r + 2 * dr, c + 2 * dc)
    &&& n >= 4 ==> pos.occupied(side, r + 3 * dr, c + 3 * dc)
}

} // verus!
