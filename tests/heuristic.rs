use points_bot::board::Board;
use points_bot::bot::{default_complexity, minimax_depth, seed_words, uct_iterations_count};
use points_bot::heuristic::heuristic;
use points_bot::player::Player;
use points_bot::table_board::TableBoard;
use points_bot::zobrist::Zobrist;

fn open_board() -> TableBoard {
    let keys: Vec<u64> = (0..32u64).map(|i| i.wrapping_mul(0x2545_F491_4F6C_DD1D) + 1).collect();
    let mut b = TableBoard::new(Zobrist::from_hashes(keys), 4, 16);
    for p in 1..15 {
        b.set_open(p, true);
    }
    b
}

#[test]
fn heuristic_takes_the_first_of_equal_moves() {
    let board = open_board();
    assert_eq!(heuristic(&board, Player::Red), Some(1));
}

#[test]
fn heuristic_prefers_joining_groups() {
    let mut board = open_board();
    board.set_near(6, Player::Red, 2);
    assert_eq!(heuristic(&board, Player::Red), Some(6));
    board.set_near(11, Player::Red, 2);
    assert!(board.put_point(14, Player::Black));
    assert_eq!(heuristic(&board, Player::Red), Some(11));
}

#[test]
fn heuristic_finds_nothing_on_a_full_board() {
    let keys: Vec<u64> = (0..8u64).collect();
    let board = TableBoard::new(Zobrist::from_hashes(keys), 2, 4);
    assert_eq!(heuristic(&board, Player::Black), None);
}

#[test]
fn table_board_takes_moves_back() {
    let mut board = open_board();
    let empty_hash = board.position_hash();
    assert!(board.put_point(5, Player::Red));
    assert_ne!(board.position_hash(), empty_hash);
    assert_eq!(board.last_move(), Some(5));
    assert!(!board.is_putting_allowed(5));
    assert!(board.is_near(5, 10));
    assert!(!board.is_near(5, 7));
    assert!(board.undo());
    assert_eq!(board.position_hash(), empty_hash);
    assert_eq!(board.moves_count(), 0);
    assert!(board.is_putting_allowed(5));
}

#[test]
fn completed_capture_scores_for_the_mover() {
    let mut board = open_board();
    board.add_capture(Player::Red, vec![2, 3]);
    assert!(board.put_point(2, Player::Red));
    assert_eq!(board.get_delta_score(Player::Red), 0);
    assert!(board.put_point(3, Player::Red));
    assert_eq!(board.get_delta_score(Player::Red), 1);
    assert_eq!(board.get_delta_score(Player::Black), -1);
}

#[test]
fn complexity_scales_the_search() {
    assert_eq!(default_complexity(), 50);
    assert_eq!(uct_iterations_count(50), 250000);
    assert_eq!(uct_iterations_count(100), 500000);
    assert_eq!(minimax_depth(50), 4);
    assert_eq!(minimax_depth(100), 8);
    assert_eq!(minimax_depth(12), 0);
    assert_eq!(seed_words(0x0000_0002_0000_0005), [3, 5, 7, 2]);
}
