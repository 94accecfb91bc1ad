use points_bot::board::Board;
use points_bot::player::Player;
use points_bot::table_board::TableBoard;
use points_bot::trajectories_pruning::{
    exclude_composite_trajectories, exclude_trajectories, intersection_hash, Trajectory,
    TrajectoriesPruning,
};
use points_bot::zobrist::Zobrist;

const SIZE: usize = 16;

fn keys() -> Vec<u64> {
    (0..SIZE as u64 * 2).map(|i| 0x9E37_79B9_7F4A_7C15u64.wrapping_mul(i + 1) ^ (i << 17)).collect()
}

/// A board of `SIZE` positions whose border cells stay closed.
fn board() -> TableBoard {
    let mut b = TableBoard::new(Zobrist::from_hashes(keys()), 4, SIZE);
    for p in 1..SIZE - 1 {
        b.set_open(p, true);
    }
    b
}

fn xor_of(z: &Zobrist, pts: &[usize]) -> u64 {
    pts.iter().fold(0, |h, &p| h ^ z.get_hash(p))
}

fn trajectory(z: &Zobrist, pts: &[usize]) -> Trajectory {
    Trajectory::new(pts.to_vec(), xor_of(z, pts))
}

#[test]
fn depth_zero_gives_nothing() {
    let mut board = board();
    board.set_near(5, Player::Red, 2);
    board.set_near(5, Player::Black, 2);
    board.add_capture(Player::Red, vec![5]);
    let mut scratch = vec![0u32; SIZE];
    let pruning = TrajectoriesPruning::new(&mut board, Player::Red, 0, &mut scratch);
    assert_eq!(pruning.trajectories(Player::Red).len(), 0);
    assert_eq!(pruning.trajectories(Player::Black).len(), 0);
    assert!(pruning.calculate_moves(&mut scratch).is_empty());
    assert!(scratch.iter().all(|&c| c == 0));
}

#[test]
fn same_set_in_two_orders_is_recorded_once() {
    let mut board = board();
    board.set_near(3, Player::Red, 2);
    board.set_near(3, Player::Black, 2);
    board.set_near(7, Player::Red, 2);
    board.set_near(7, Player::Black, 2);
    board.add_capture(Player::Red, vec![3, 7]);
    let mut scratch = vec![0u32; SIZE];
    let pruning = TrajectoriesPruning::new(&mut board, Player::Red, 3, &mut scratch);
    let red = pruning.trajectories(Player::Red);
    assert_eq!(red.len(), 1);
    assert_eq!(red[0].points(), &vec![3, 7]);
    assert_eq!(red[0].hash(), xor_of(&Zobrist::from_hashes(keys()), &[7, 3]));
    // Alone, the line owns both of its points, so one defence cannot meet it.
    assert!(red[0].excluded());
    assert!(pruning.calculate_moves(&mut scratch).is_empty());
}

#[test]
fn union_hash_of_disjoint_and_overlapping_sets() {
    let z = Zobrist::from_hashes(keys());
    let mut scratch = vec![0u32; SIZE];
    let a = trajectory(&z, &[1, 2]);
    let b = trajectory(&z, &[3]);
    assert_eq!(intersection_hash(&a, &b, &z, &mut scratch), xor_of(&z, &[1, 2, 3]));
    let c = trajectory(&z, &[2, 3]);
    assert_eq!(intersection_hash(&a, &c, &z, &mut scratch), xor_of(&z, &[1, 2, 3]));
    assert_ne!(a.hash() ^ c.hash(), xor_of(&z, &[1, 2, 3]));
    assert!(scratch.iter().all(|&c| c == 0));
}

#[test]
fn composite_of_two_singles_is_excluded() {
    let z = Zobrist::from_hashes(keys());
    let mut scratch = vec![0u32; SIZE];
    let mut list = vec![trajectory(&z, &[4]), trajectory(&z, &[9]), trajectory(&z, &[4, 9])];
    exclude_composite_trajectories(&mut list, &z, &mut scratch);
    assert!(!list[0].excluded());
    assert!(!list[1].excluded());
    assert!(list[2].excluded());
    assert!(scratch.iter().all(|&c| c == 0));
}

#[test]
fn longer_line_that_is_not_a_union_stays() {
    let z = Zobrist::from_hashes(keys());
    let mut scratch = vec![0u32; SIZE];
    let mut list = vec![trajectory(&z, &[4]), trajectory(&z, &[9]), trajectory(&z, &[4, 10])];
    exclude_composite_trajectories(&mut list, &z, &mut scratch);
    assert!(list.iter().all(|t| !t.excluded()));
}

#[test]
fn lines_with_two_private_points_fall_to_a_fixpoint() {
    let z = Zobrist::from_hashes(keys());
    let mut scratch = vec![0u32; SIZE];
    let mut red = vec![
        trajectory(&z, &[1, 2, 3]),
        trajectory(&z, &[1, 4, 5]),
        trajectory(&z, &[1, 6, 7]),
    ];
    let mut black: Vec<Trajectory> = Vec::new();
    exclude_trajectories(&mut red, &mut black, &z, &mut scratch);
    assert!(red.iter().all(|t| t.excluded()));
    assert!(scratch.iter().all(|&c| c == 0));
}

#[test]
fn lines_sharing_their_points_survive() {
    let z = Zobrist::from_hashes(keys());
    let mut scratch = vec![0u32; SIZE];
    let mut red = vec![trajectory(&z, &[1, 2]), trajectory(&z, &[2, 3])];
    let mut black = vec![trajectory(&z, &[1, 3])];
    exclude_trajectories(&mut red, &mut black, &z, &mut scratch);
    assert!(red.iter().all(|t| !t.excluded()));
    assert!(!black[0].excluded());
    assert!(scratch.iter().all(|&c| c == 0));
}

#[test]
fn candidate_moves_have_no_repeats() {
    let mut board = board();
    board.set_near(3, Player::Red, 2);
    board.set_near(3, Player::Black, 2);
    board.set_near(5, Player::Red, 2);
    board.set_near(5, Player::Black, 2);
    board.set_near(8, Player::Red, 2);
    board.set_near(8, Player::Black, 2);
    board.add_capture(Player::Red, vec![3, 5]);
    board.add_capture(Player::Red, vec![3, 8]);
    let mut scratch = vec![0u32; SIZE];
    let pruning = TrajectoriesPruning::new(&mut board, Player::Red, 3, &mut scratch);
    assert_eq!(pruning.trajectories(Player::Red).len(), 2);
    let moves = pruning.calculate_moves(&mut scratch);
    assert_eq!(moves, vec![3, 5, 8]);
    assert!(scratch.iter().all(|&c| c == 0));
}

#[test]
fn discovery_leaves_the_board_as_it_was() {
    let mut board = board();
    board.set_near(3, Player::Red, 2);
    board.set_near(7, Player::Red, 2);
    board.add_capture(Player::Red, vec![3, 7]);
    assert!(board.put_point(12, Player::Black));
    let moves: Vec<usize> = (0..board.moves_count()).map(|i| board.move_at(i)).collect();
    let hash = board.position_hash();
    let delta = board.get_delta_score(Player::Black);
    let mut scratch = vec![0u32; SIZE];
    let pruning = TrajectoriesPruning::new(&mut board, Player::Red, 4, &mut scratch);
    assert_eq!(pruning.trajectories(Player::Red).len(), 1);
    assert_eq!((0..board.moves_count()).map(|i| board.move_at(i)).collect::<Vec<usize>>(), moves);
    assert_eq!(board.position_hash(), hash);
    assert_eq!(board.get_delta_score(Player::Black), delta);
    let child = TrajectoriesPruning::new_from_last(&mut board, Player::Black, 4, &mut scratch, &pruning, 3);
    assert_eq!((0..board.moves_count()).map(|i| board.move_at(i)).collect::<Vec<usize>>(), moves);
    assert_eq!(board.position_hash(), hash);
    assert_eq!(board.get_delta_score(Player::Black), delta);
    assert!(child.trajectories(Player::Red).len() <= 1);
    assert!(scratch.iter().all(|&c| c == 0));
}

#[test]
fn lone_stone_gives_no_trajectory() {
    let mut board = board();
    board.set_near(6, Player::Red, 1);
    board.set_near(6, Player::Black, 1);
    board.set_near(8, Player::Red, 1);
    board.set_near(8, Player::Black, 1);
    board.add_capture(Player::Red, vec![6]);
    let mut scratch = vec![0u32; SIZE];
    let pruning = TrajectoriesPruning::new(&mut board, Player::Red, 1, &mut scratch);
    assert_eq!(pruning.trajectories(Player::Red).len(), 0);
    assert_eq!(pruning.trajectories(Player::Black).len(), 0);
    assert!(pruning.calculate_moves(&mut scratch).is_empty());
}

#[test]
fn immediate_capture_is_the_only_move() {
    let mut board = board();
    board.set_near(6, Player::Red, 2);
    board.set_near(6, Player::Black, 2);
    board.set_near(9, Player::Red, 1);
    board.set_near(9, Player::Black, 1);
    board.add_capture(Player::Red, vec![6]);
    let mut scratch = vec![0u32; SIZE];
    let pruning = TrajectoriesPruning::new(&mut board, Player::Red, 1, &mut scratch);
    let red = pruning.trajectories(Player::Red);
    assert_eq!(red.len(), 1);
    assert_eq!(red[0].points(), &vec![6]);
    assert!(!red[0].excluded());
    assert_eq!(red[0].len(), 1);
    assert_eq!(pruning.calculate_moves(&mut scratch), vec![6]);
}

#[test]
fn carried_line_loses_the_played_point() {
    let mut board = board();
    board.set_near(3, Player::Red, 2);
    board.set_near(7, Player::Red, 2);
    board.add_capture(Player::Red, vec![3, 7]);
    let mut scratch = vec![0u32; SIZE];
    let parent = TrajectoriesPruning::new(&mut board, Player::Red, 4, &mut scratch);
    assert_eq!(parent.trajectories(Player::Red).len(), 1);
    assert!(board.put_point(7, Player::Red));
    let child = TrajectoriesPruning::new_from_last(&mut board, Player::Black, 2, &mut scratch, &parent, 7);
    let red = child.trajectories(Player::Red);
    assert_eq!(red.len(), 1);
    assert_eq!(red[0].points(), &vec![3]);
    assert_eq!(red[0].hash(), xor_of(&Zobrist::from_hashes(keys()), &[3]));
    assert_eq!(child.calculate_moves(&mut scratch), vec![3]);
    let shallow = TrajectoriesPruning::new_from_last(&mut board, Player::Black, 1, &mut scratch, &parent, 7);
    assert_eq!(shallow.trajectories(Player::Red).len(), 0);
}

#[test]
fn reuse_at_a_smaller_depth_keeps_short_lines() {
    let mut board = board();
    board.set_near(3, Player::Red, 2);
    board.set_near(3, Player::Black, 2);
    board.set_near(7, Player::Red, 2);
    board.set_near(7, Player::Black, 2);
    board.set_near(10, Player::Red, 2);
    board.set_near(10, Player::Black, 2);
    board.add_capture(Player::Red, vec![3, 7]);
    board.add_capture(Player::Red, vec![10]);
    let mut scratch = vec![0u32; SIZE];
    let full = TrajectoriesPruning::new(&mut board, Player::Red, 4, &mut scratch);
    assert_eq!(full.trajectories(Player::Red).len(), 4);
    let small = TrajectoriesPruning::new_from_exists(&board, Player::Red, 1, &mut scratch, &full);
    let red = small.trajectories(Player::Red);
    assert_eq!(red.len(), 1);
    assert_eq!(red[0].points(), &vec![10]);
    assert_eq!(small.trajectories(Player::Black).len(), 0);
    let none = TrajectoriesPruning::new_from_exists(&board, Player::Red, 0, &mut scratch, &full);
    assert!(none.calculate_moves(&mut scratch).is_empty());
}

#[test]
fn empty_state_has_no_moves() {
    let mut scratch = vec![0u32; SIZE];
    let pruning = TrajectoriesPruning::empty();
    assert!(pruning.calculate_moves(&mut scratch).is_empty());
}

#[test]
fn exclude_marks_a_trajectory() {
    let z = Zobrist::from_hashes(keys());
    let mut t = trajectory(&z, &[2, 5]);
    assert!(!t.excluded());
    assert_eq!(t.len(), 2);
    t.exclude();
    assert!(t.excluded());
    assert_eq!(t.points(), &vec![2, 5]);
}
