use connect4_ai::game::{Game, Player, COLS, ROWS, WIN};
use connect4_ai::order::column_order;
use connect4_ai::board::check_board;
use connect4_ai::{cols, rows, wins};

const A: u32 = 0;
const H: u32 = 1;
const E: u32 = 2;

fn empty_board() -> Vec<Vec<u32>> {
    vec![vec![E; COLS]; ROWS]
}

fn board_of(rows: [[u32; COLS]; ROWS]) -> Vec<Vec<u32>> {
    rows.iter().map(|row| row.to_vec()).collect()
}

#[test]
fn board_constants() {
    assert_eq!(rows(), 6);
    assert_eq!(cols(), 7);
    assert_eq!(wins(), 4);
    assert_eq!((ROWS, COLS, WIN), (6, 7, 4));
}

#[test]
fn tokens_of_the_sides() {
    assert_eq!(Player::AI.token(), 0);
    assert_eq!(Player::HUMAN.token(), 1);
}

#[test]
fn move_order_is_center_out() {
    assert_eq!(column_order(), [3, 2, 4, 1, 5, 0, 6]);
}

#[test]
fn new_reads_grids_and_heights() {
    let game = Game::new(board_of([
        [E, E, E, E, E, E, E],
        [E, E, E, E, E, E, E],
        [E, E, E, E, E, E, E],
        [E, E, E, A, E, E, E],
        [E, E, E, H, E, E, 7],
        [A, E, E, H, E, E, H],
    ]));
    assert_eq!(game.heights, [1, 0, 0, 3, 0, 0, 1]);
    for r in 0..ROWS {
        for c in 0..COLS {
            assert_eq!(game.ai[r][c], (r, c) == (5, 0) || (r, c) == (3, 3));
            assert_eq!(game.hum[r][c], (r, c) == (4, 3) || (r, c) == (5, 3) || (r, c) == (5, 6));
        }
    }
}

#[test]
fn hash_board_weighs_cells_by_position() {
    let mut board = [[false; COLS]; ROWS];
    assert_eq!(Game::hash_board(&board), 0);
    board[0][0] = true;
    assert_eq!(Game::hash_board(&board), 1);
    board[0][3] = true;
    assert_eq!(Game::hash_board(&board), 1 + 8);
    board[1][0] = true;
    assert_eq!(Game::hash_board(&board), 1 + 8 + 128);
    board[5][6] = true;
    assert_eq!(Game::hash_board(&board), 1 + 8 + 128 + (1u64 << 41));
    assert_eq!(Game::hash_board(&[[true; COLS]; ROWS]), (1u64 << 42) - 1);
}

#[test]
fn insert_stacks_tokens_from_the_bottom() {
    let mut game = Game::new(empty_board());
    assert!(game.insert(&Player::AI, 2));
    assert!(game.insert(&Player::HUMAN, 2));
    assert!(game.insert(&Player::HUMAN, 6));
    assert_eq!(game.heights, [0, 0, 2, 0, 0, 0, 1]);
    assert!(game.ai[5][2] && !game.hum[5][2]);
    assert!(game.hum[4][2] && !game.ai[4][2]);
    assert!(game.hum[5][6] && !game.ai[5][6]);
    let taken = game.ai.iter().chain(game.hum.iter()).flatten().filter(|cell| **cell).count();
    assert_eq!(taken, 3);
}

#[test]
fn insert_into_full_column_changes_nothing() {
    let mut game = Game::new(empty_board());
    for turn in 0..ROWS {
        let side = if turn % 2 == 0 { Player::AI } else { Player::HUMAN };
        assert!(game.insert(&side, 4));
        assert!(game.heights.iter().all(|h| *h <= ROWS));
        assert!(game.heights.iter().sum::<usize>() <= ROWS * COLS);
    }
    let (ai, hum, heights) = (game.ai, game.hum, game.heights);
    assert!(!game.insert(&Player::AI, 4));
    assert!(!game.insert(&Player::HUMAN, 4));
    assert_eq!(game.heights, [0, 0, 0, 0, 6, 0, 0]);
    assert_eq!((game.ai, game.hum, game.heights), (ai, hum, heights));
}

#[test]
fn remove_undoes_insert() {
    let mut game = Game::new(board_of([
        [E, E, E, E, E, E, E],
        [E, E, E, E, E, E, E],
        [E, E, E, E, E, E, E],
        [E, E, A, E, E, E, E],
        [E, H, H, E, E, E, E],
        [A, A, H, E, E, E, A],
    ]));
    let (ai, hum, heights) = (game.ai, game.hum, game.heights);
    let hash = game.position_hash();
    for col in 0..COLS {
        assert!(game.insert(&Player::HUMAN, col));
        assert_eq!(game.heights[col], heights[col] + 1);
        assert_ne!(game.position_hash(), hash);
        assert!(game.insert(&Player::AI, col));
        game.remove(&Player::AI, col);
        game.remove(&Player::HUMAN, col);
        assert_eq!((game.ai, game.hum, game.heights), (ai, hum, heights));
        assert_eq!(game.position_hash(), hash);
    }
}

#[test]
fn hash_follows_the_grids() {
    let mut game = Game::new(board_of([
        [E, E, E, E, E, E, E],
        [E, E, E, E, E, E, E],
        [E, E, E, E, E, E, E],
        [E, E, A, E, E, E, E],
        [E, H, H, E, E, E, E],
        [A, A, H, E, E, E, A],
    ]));
    let weight = |r: u32, c: u32| 1u64 << (r * 7 + c);
    let ai = weight(3, 2) + weight(5, 0) + weight(5, 1) + weight(5, 6);
    let hum = weight(4, 1) + weight(4, 2) + weight(5, 2);
    assert_eq!(game.position_hash(), (ai, hum));
    assert!(game.insert(&Player::HUMAN, 2));
    assert_eq!(game.position_hash(), (ai, hum + weight(2, 2)));
    assert!(game.insert(&Player::AI, 5));
    assert_eq!(game.position_hash(), (ai + weight(5, 5), hum + weight(2, 2)));
    assert_eq!(
        game.position_hash(),
        (Game::hash_board(&game.ai), Game::hash_board(&game.hum))
    );
    game.remove(&Player::AI, 5);
    assert_eq!(game.position_hash(), (ai, hum + weight(2, 2)));
}

#[test]
fn cells_and_heights_are_read_back() {
    let mut game = Game::new(board_of([
        [E, E, E, E, E, E, E],
        [E, E, E, E, E, E, E],
        [E, E, E, E, E, E, E],
        [E, E, A, E, E, E, E],
        [E, H, H, E, E, E, E],
        [A, A, H, E, E, E, A],
    ]));
    let counts: Vec<usize> = (0..COLS).map(|c| game.height(c)).collect();
    assert_eq!(counts, vec![1, 2, 3, 0, 0, 0, 1]);
    assert!(game.cell(&Player::AI, 3, 2) && !game.cell(&Player::HUMAN, 3, 2));
    assert!(game.cell(&Player::HUMAN, 4, 1) && !game.cell(&Player::AI, 4, 1));
    assert!(!game.cell(&Player::AI, 2, 2) && !game.cell(&Player::HUMAN, 2, 2));
    assert!(game.insert(&Player::HUMAN, 2));
    assert_eq!(game.height(2), 4);
    assert!(game.cell(&Player::HUMAN, 2, 2) && !game.cell(&Player::AI, 2, 2));
    for r in 0..ROWS {
        for c in 0..COLS {
            assert_eq!(game.cell(&Player::AI, r, c), game.ai[r][c]);
            assert_eq!(game.cell(&Player::HUMAN, r, c), game.hum[r][c]);
        }
    }
}

#[test]
fn four_in_bottom_row_wins() {
    let mut game = Game::new(board_of([
        [E, E, E, E, E, E, E],
        [E, E, E, E, E, E, E],
        [E, E, E, E, E, E, E],
        [E, E, E, E, E, E, E],
        [E, E, E, E, E, E, E],
        [A, A, A, A, E, E, E],
    ]));
    assert!(game.check_winner(&Player::AI));
    assert!(!game.check_winner(&Player::HUMAN));
}

#[test]
fn three_in_bottom_row_do_not_win() {
    let mut game = Game::new(board_of([
        [E, E, E, E, E, E, E],
        [E, E, E, E, E, E, E],
        [E, E, E, E, E, E, E],
        [E, E, E, E, E, E, E],
        [E, E, E, E, E, E, E],
        [A, A, A, E, E, E, E],
    ]));
    assert!(!game.check_winner(&Player::AI));
    assert!(!game.check_winner(&Player::HUMAN));
}

#[test]
fn four_in_a_column_win() {
    let mut game = Game::new(board_of([
        [E, E, E, E, E, E, E],
        [E, E, E, E, E, E, E],
        [E, E, E, E, E, E, H],
        [E, E, E, E, E, E, H],
        [E, E, E, E, E, E, H],
        [A, A, A, E, E, E, H],
    ]));
    assert!(game.check_winner(&Player::HUMAN));
    assert!(!game.check_winner(&Player::AI));
}

#[test]
fn four_on_a_falling_diagonal_win() {
    let mut game = Game::new(board_of([
        [E, E, E, E, E, E, E],
        [E, E, E, E, E, E, E],
        [E, E, E, A, E, E, E],
        [E, E, E, H, A, E, E],
        [E, E, E, H, H, A, E],
        [E, E, E, A, H, H, A],
    ]));
    assert!(game.check_winner(&Player::AI));
    assert!(!game.check_winner(&Player::HUMAN));
}

#[test]
fn four_on_a_rising_diagonal_win() {
    let mut game = Game::new(board_of([
        [E, E, E, E, E, E, E],
        [E, E, E, E, E, E, E],
        [E, E, E, H, E, E, E],
        [E, E, H, A, E, E, E],
        [E, H, H, H, E, E, E],
        [H, A, A, A, E, E, E],
    ]));
    assert!(game.check_winner(&Player::HUMAN));
    assert!(!game.check_winner(&Player::AI));
}

#[test]
fn a_run_does_not_wrap_around_the_edge() {
    let mut game = Game::new(board_of([
        [E, E, E, E, E, E, E],
        [E, E, E, E, E, E, E],
        [E, E, E, E, E, E, E],
        [E, E, E, E, E, E, E],
        [A, A, H, H, H, H, A],
        [H, H, A, H, A, A, A],
    ]));
    assert!(game.check_winner(&Player::HUMAN));
    assert!(!game.check_winner(&Player::AI));
    let mut split = Game::new(board_of([
        [E, E, E, E, E, E, E],
        [E, E, E, E, E, E, E],
        [E, E, E, E, E, E, E],
        [E, E, E, E, E, E, E],
        [A, A, E, E, E, E, E],
        [H, H, E, E, E, A, A],
    ]));
    assert!(!split.check_winner(&Player::AI));
    assert!(!split.check_winner(&Player::HUMAN));
}

#[test]
fn check_board_accepts_stacked_boards() {
    assert!(check_board(&empty_board()));
    assert!(check_board(&board_of([
        [E, E, E, E, E, E, E],
        [E, E, E, E, E, E, E],
        [E, E, E, E, E, E, E],
        [E, E, A, E, E, E, E],
        [E, H, H, E, E, E, E],
        [A, A, H, 9, E, E, A],
    ])));
}

#[test]
fn check_board_refuses_wrong_sizes() {
    assert!(!check_board(&Vec::new()));
    assert!(!check_board(&vec![vec![E; COLS]; ROWS - 1]));
    assert!(!check_board(&vec![vec![E; COLS]; ROWS + 1]));
    assert!(!check_board(&vec![vec![E; COLS + 1]; ROWS]));
    let mut ragged = empty_board();
    ragged[3].pop();
    assert!(!check_board(&ragged));
}

#[test]
fn check_board_refuses_floating_tokens() {
    let mut board = empty_board();
    board[4][1] = H;
    assert!(!check_board(&board));
    board[5][1] = A;
    assert!(check_board(&board));
    board[0][6] = A;
    assert!(!check_board(&board));
}
