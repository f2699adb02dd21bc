use connect4_ai::game::{Game, Player, COLS, ROWS};
use connect4_ai::{calculate_move, calculate_scores};

const A: u32 = 0;
const H: u32 = 1;
const E: u32 = 2;

fn empty_board() -> Vec<Vec<u32>> {
    vec![vec![E; COLS]; ROWS]
}

fn board_of(rows: [[u32; COLS]; ROWS]) -> Vec<Vec<u32>> {
    rows.iter().map(|row| row.to_vec()).collect()
}

/// A full board on which neither side has four in a row.
fn drawn_board() -> [[u32; COLS]; ROWS] {
    [
        [H, A, H, A, H, H, A],
        [A, A, H, H, H, A, H],
        [H, H, A, H, H, H, A],
        [A, A, A, H, A, A, A],
        [H, A, A, A, H, A, H],
        [H, A, H, A, H, A, H],
    ]
}

#[test]
fn drawn_board_has_no_winner() {
    let mut game = Game::new(board_of(drawn_board()));
    assert_eq!(game.heights, [ROWS; COLS]);
    assert!(!game.check_winner(&Player::AI));
    assert!(!game.check_winner(&Player::HUMAN));
}

#[test]
fn scores_have_one_entry_per_column() {
    for depth in 0..5 {
        assert_eq!(calculate_scores(empty_board(), depth).len(), COLS);
    }
}

#[test]
fn shallow_search_from_empty_board_is_level() {
    for depth in 0..7 {
        assert_eq!(calculate_scores(empty_board(), depth), [0i8; COLS]);
    }
}

#[test]
fn full_columns_score_worst() {
    let board = board_of([
        [A, E, E, E, E, E, H],
        [H, E, E, E, E, E, A],
        [A, E, E, E, E, E, H],
        [H, E, E, E, E, E, A],
        [A, E, E, E, E, E, H],
        [H, E, E, A, E, E, A],
    ]);
    for depth in 0..5 {
        let scores = calculate_scores(board.clone(), depth);
        for c in 0..COLS {
            assert_eq!(scores[c] == i8::MIN, c == 0 || c == 6);
        }
    }
}

#[test]
fn search_leaves_the_board_as_it_was() {
    let mut game = Game::new(board_of([
        [E, E, E, E, E, E, E],
        [E, E, E, E, E, E, E],
        [E, E, E, E, E, E, E],
        [E, E, A, E, E, E, E],
        [E, H, H, E, E, E, E],
        [A, A, H, E, E, E, A],
    ]));
    let (ai, hum, heights) = (game.ai, game.hum, game.heights);
    let first = game.minimax(5);
    assert_eq!((game.ai, game.hum, game.heights), (ai, hum, heights));
    let second = game.minimax(5);
    assert_eq!(first, second);
    assert_eq!((game.ai, game.hum, game.heights), (ai, hum, heights));
}

#[test]
fn cache_does_not_outlive_a_search() {
    let board = board_of([
        [E, E, E, E, E, E, E],
        [E, E, E, E, E, E, E],
        [E, E, E, E, E, E, E],
        [E, E, E, E, E, E, E],
        [A, A, A, E, E, E, E],
        [H, H, H, E, E, E, A],
    ]);
    let mut game = Game::new(board.clone());
    let shallow = game.minimax(1);
    let deep = game.minimax(2);
    assert_eq!(shallow, calculate_scores(board.clone(), 1));
    assert_eq!(deep, calculate_scores(board, 2));
    assert_ne!(shallow, deep);
}

#[test]
fn winning_move_scores_half_the_plies_left() {
    let board = board_of([
        [E, E, E, E, E, E, E],
        [E, E, E, E, E, E, E],
        [E, E, E, E, E, E, E],
        [E, E, E, E, E, E, E],
        [H, H, E, E, E, E, E],
        [A, A, A, E, E, E, H],
    ]);
    assert_eq!(calculate_scores(board.clone(), 1), [0, 0, 0, 20, 0, 0, 0]);
    assert_eq!(calculate_move(board, 1), 3);
}

#[test]
fn unanswered_threat_scores_as_a_loss() {
    let board = board_of([
        [E, E, E, E, E, E, E],
        [E, E, E, E, E, E, E],
        [E, E, E, E, E, E, E],
        [E, E, E, E, E, E, E],
        [A, A, A, E, E, E, E],
        [H, H, H, E, E, E, E],
    ]);
    assert_eq!(calculate_scores(board.clone(), 2), [-20, -20, -20, 0, -20, -20, -20]);
    assert_eq!(calculate_move(board.clone(), 2), 3);
    assert_eq!(calculate_scores(board, 1), [0i8; COLS]);
}

#[test]
fn ties_go_to_the_lowest_column() {
    assert_eq!(calculate_move(empty_board(), 0), 0);
    assert_eq!(calculate_move(empty_board(), 3), 0);
    let board = board_of([
        [H, H, E, E, E, E, E],
        [A, A, E, E, E, E, E],
        [H, H, E, E, E, E, E],
        [A, A, E, E, E, E, E],
        [H, H, E, E, E, E, E],
        [A, A, E, E, E, E, E],
    ]);
    assert_eq!(calculate_scores(board.clone(), 0), [i8::MIN, i8::MIN, 0, 0, 0, 0, 0]);
    assert_eq!(calculate_move(board, 0), 2);
}

#[test]
fn full_board_has_no_move() {
    assert_eq!(calculate_scores(board_of(drawn_board()), 4), [i8::MIN; COLS]);
    assert_eq!(calculate_move(board_of(drawn_board()), 4), 0);
}

#[test]
fn opening_is_level_at_depth_15() {
    assert_eq!(calculate_scores(empty_board(), 15), [0i8; COLS]);
}

#[test]
fn lost_node_at_depth_five_scores_eighteen() {
    let board = board_of([
        [E, E, E, E, E, E, E],
        [E, E, E, E, E, E, E],
        [E, E, E, E, E, E, E],
        [E, E, E, E, E, E, E],
        [A, A, A, E, E, E, E],
        [H, H, H, H, E, E, E],
    ]);
    let mut game = Game::new(board);
    assert_eq!(game.minimax_util(true, 5, 10, i8::MIN, i8::MAX), -18);

    let mirrored = board_of([
        [E, E, E, E, E, E, E],
        [E, E, E, E, E, E, E],
        [E, E, E, E, E, E, E],
        [E, E, E, E, E, E, E],
        [H, H, H, E, E, E, E],
        [A, A, A, A, E, E, E],
    ]);
    let mut game = Game::new(mirrored);
    assert_eq!(game.minimax_util(false, 5, 10, i8::MIN, i8::MAX), 18);
}

#[test]
fn lost_node_is_scored_before_the_depth_limit() {
    let board = board_of([
        [E, E, E, E, E, E, E],
        [E, E, E, E, E, E, E],
        [E, E, E, E, E, E, E],
        [E, E, E, E, E, E, E],
        [A, A, A, E, E, E, E],
        [H, H, H, H, E, E, E],
    ]);
    let mut game = Game::new(board);
    assert_eq!(game.minimax_util(true, 7, 3, i8::MIN, i8::MAX), -17);
    assert_eq!(game.minimax_util(true, 1, 1, i8::MIN, i8::MAX), -20);
}

#[test]
fn depth_limit_scores_neutral() {
    let board = board_of([
        [E, E, E, E, E, E, E],
        [E, E, E, E, E, E, E],
        [E, E, E, E, E, E, E],
        [E, E, E, E, E, E, E],
        [E, E, E, E, E, E, E],
        [A, A, A, E, H, H, H],
    ]);
    let mut game = Game::new(board.clone());
    assert_eq!(game.minimax_util(true, 4, 4, i8::MIN, i8::MAX), 0);
    assert_eq!(game.minimax_util(false, 6, 4, i8::MIN, i8::MAX), 0);
    assert_eq!(game.minimax_util(true, 4, 5, i8::MIN, i8::MAX), 18);
    let mut game = Game::new(board);
    assert_eq!(game.minimax_util(false, 4, 5, i8::MIN, i8::MAX), -18);
}

#[test]
fn cached_score_is_returned_as_it_is() {
    let board = board_of([
        [E, E, E, E, E, E, E],
        [E, E, E, E, E, E, E],
        [E, E, E, E, E, E, E],
        [E, E, E, E, E, E, E],
        [E, E, E, E, E, E, E],
        [A, A, A, E, H, H, H],
    ]);
    let mut game = Game::new(board);
    assert_eq!(game.minimax_util(true, 4, 5, i8::MIN, i8::MAX), 18);
    assert_eq!(game.minimax_util(false, 4, 5, i8::MIN, i8::MAX), 18);
    assert_eq!(game.minimax_util(true, 6, 6, 3, 2), 18);
}

#[test]
fn cutoff_is_not_cached_but_full_visit_is() {
    let board = board_of([
        [E, E, E, E, E, E, E],
        [E, E, E, E, E, E, E],
        [E, E, E, E, E, E, E],
        [A, E, E, E, E, E, E],
        [A, E, E, E, E, E, E],
        [A, E, H, E, H, E, H],
    ]);
    let mut game = Game::new(board);
    assert_eq!(game.cached_score(), None);
    // The first child scores 0, which closes the window: a cutoff.
    assert_eq!(game.minimax_util(true, 6, 8, -10, 0), 0);
    assert_eq!(game.cached_score(), None);
    // Nothing was cached for the node: the full window finds the win in column 0.
    assert_eq!(game.minimax_util(true, 6, 8, i8::MIN, i8::MAX), 17);
    assert_eq!(game.cached_score(), Some(17));
    // Now the node is cached, and the narrow window gets the cached score.
    assert_eq!(game.minimax_util(true, 6, 8, -10, 0), 17);
    assert_eq!(game.cached_score(), Some(17));
}

#[test]
fn lost_node_with_four_tokens_at_depth_five() {
    let mut game = Game::new(board_of([
        [E, E, E, E, E, E, E],
        [E, E, E, E, E, E, E],
        [E, E, E, E, E, E, E],
        [E, E, E, E, E, E, E],
        [E, E, E, E, E, E, E],
        [H, H, H, H, E, E, E],
    ]));
    assert_eq!(game.minimax_util(true, 5, 10, i8::MIN, i8::MAX), -18);
    assert_eq!(game.cached_positions(), 0);
    assert_eq!(game.heights, [1, 1, 1, 1, 0, 0, 0]);
}

#[test]
fn lost_node_beyond_the_depth_limit() {
    let mut game = Game::new(board_of([
        [E, E, E, E, E, E, E],
        [E, E, E, E, E, E, E],
        [E, E, E, E, E, E, E],
        [E, E, E, E, E, E, E],
        [E, E, E, E, E, E, E],
        [A, A, A, A, E, E, E],
    ]));
    assert_eq!(game.minimax_util(false, 5, 3, i8::MIN, i8::MAX), 18);
    assert_eq!(game.minimax_util(false, 42, 3, i8::MIN, i8::MAX), 0);
    assert_eq!(game.minimax_util(false, 0, 0, i8::MIN, i8::MAX), 21);
    assert_eq!(game.cached_positions(), 0);
}

#[test]
fn full_visit_from_the_empty_board_caches_the_root() {
    let mut game = Game::new(empty_board());
    let hash = game.position_hash();
    assert_eq!(hash, (0, 0));
    assert_eq!(game.minimax_util(false, 1, 2, i8::MIN, i8::MAX), 0);
    assert_eq!(game.cached_score(), Some(0));
    assert_eq!(game.cached_positions(), 1);
    assert_eq!(game.position_hash(), hash);
    assert_eq!(game.heights, [0; COLS]);
}

#[test]
fn cutoff_from_the_empty_board_caches_nothing() {
    let mut game = Game::new(empty_board());
    assert_eq!(game.minimax_util(false, 1, 2, 0, i8::MAX), 0);
    assert_eq!(game.cached_score(), None);
    assert_eq!(game.cached_positions(), 0);
    assert_eq!(game.position_hash(), (0, 0));
    assert_eq!(game.heights, [0; COLS]);
}

#[test]
fn depth_limit_on_the_empty_board_is_neutral() {
    let mut game = Game::new(empty_board());
    assert_eq!(game.minimax_util(true, 1, 1, i8::MIN, i8::MAX), 0);
    assert_eq!(game.minimax_util(false, 7, 2, i8::MIN, i8::MAX), 0);
    assert_eq!(game.cached_positions(), 0);
}

#[test]
fn search_fills_and_refills_the_cache() {
    let mut game = Game::new(empty_board());
    assert_eq!(game.cached_positions(), 0);
    game.minimax(2);
    let cached = game.cached_positions();
    assert_eq!(cached, COLS);
    assert_eq!(game.cached_score(), None);
    game.minimax(1);
    assert_eq!(game.cached_positions(), 0);
}

#[test]
fn exhausted_board_scores_the_worst_for_the_side_to_move() {
    let mut rows = drawn_board();
    rows[0][1] = E;
    let board = board_of(rows);
    let mut last = [i8::MIN; COLS];
    last[1] = i8::MAX;
    assert_eq!(calculate_scores(board.clone(), 2), last);
    assert_eq!(calculate_move(board.clone(), 2), 1);
    last[1] = 0;
    assert_eq!(calculate_scores(board, 1), last);
}

#[test]
fn worst_score_can_reach_an_open_column() {
    let mut rows = drawn_board();
    rows[0][0] = E;
    rows[1][0] = E;
    let board = board_of(rows);
    assert_eq!(calculate_scores(board.clone(), 3), [i8::MIN; COLS]);
    let mut level = [i8::MIN; COLS];
    level[0] = 0;
    assert_eq!(calculate_scores(board, 2), level);
}
