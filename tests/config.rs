use points_bot::config::{
    final_rave, final_ucb_type, rave, threads_count, time_gap, ucb_type, uct_depth,
    uct_komi_min_iterations, uct_komi_type, uct_radius, uct_when_create_children, Config,
    Solver, UcbType, UctKomiType,
};
use points_bot::player::Player;
use points_bot::zobrist::Zobrist;
use rand::{SeedableRng, XorShiftRng};

#[test]
fn ucb_type_names() {
    for t in [UcbType::Winrate, UcbType::Ucb1, UcbType::Ucb1Tuned] {
        assert_eq!(UcbType::from_str(t.as_str()), Some(t));
    }
    assert_eq!(UcbType::Ucb1Tuned.as_str(), "Ucb1Tuned");
    assert_eq!(UcbType::from_str("ucb1"), None);
    assert_eq!(UcbType::from_str(""), None);
}

#[test]
fn komi_type_names() {
    for t in [UctKomiType::NoKomi, UctKomiType::Static, UctKomiType::Dynamic] {
        assert_eq!(UctKomiType::from_str(t.as_str()), Some(t));
    }
    assert_eq!(UctKomiType::NoKomi.as_str(), "None");
    assert_eq!(UctKomiType::from_str("Dynamic"), Some(UctKomiType::Dynamic));
    assert_eq!(UctKomiType::from_str("dynamic"), None);
}

#[test]
fn solver_names() {
    assert_eq!(Solver::from_str("Uct"), Some(Solver::Uct));
    assert_eq!(Solver::from_str("Heuristic"), Some(Solver::Heuristic));
    assert_eq!(Solver::Heuristic.as_str(), "Heuristic");
    assert_eq!(Solver::from_str("Minimax"), None);
}

#[test]
fn default_configuration() {
    let c = Config::defaults();
    assert_eq!(uct_radius(&c), 3);
    assert_eq!(ucb_type(&c), UcbType::Ucb1Tuned);
    assert_eq!(final_ucb_type(&c), UcbType::Winrate);
    assert_eq!(uct_when_create_children(&c), 2);
    assert_eq!(uct_depth(&c), 8);
    assert_eq!(uct_komi_type(&c), UctKomiType::Dynamic);
    assert_eq!(uct_komi_min_iterations(&c), 3000);
    assert_eq!(time_gap(&c), 100);
    assert_eq!(threads_count(&c, 6), 6);
    assert!(rave());
    assert!(!final_rave());
}

#[test]
fn configured_threads_win_over_processors() {
    let mut c = Config::defaults();
    c.bot.threads_count = Some(3);
    assert_eq!(threads_count(&c, 8), 3);
}

#[test]
fn random_table_has_the_asked_size() {
    let mut rng = XorShiftRng::from_seed([3, 1, 7, 0]);
    let z = Zobrist::new(40, &mut rng);
    assert_eq!(z.len(), 40);
    let mut again = XorShiftRng::from_seed([3, 1, 7, 0]);
    let w = Zobrist::new(40, &mut again);
    assert!((0..40).all(|i| z.get_hash(i) == w.get_hash(i)));
    assert!((1..40).any(|i| z.get_hash(i) != z.get_hash(0)));
}

#[test]
fn players_alternate() {
    assert_eq!(Player::Red.next(), Player::Black);
    assert_eq!(Player::Black.next(), Player::Red);
}
