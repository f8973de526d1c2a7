use iomrascalai::board::Board;
use iomrascalai::board::Color;
use iomrascalai::board::Move;
use iomrascalai::board::Ruleset;
use iomrascalai::config::Config;
use iomrascalai::playout::Playout;
use iomrascalai::playout::PlayoutKind;
use iomrascalai::playout::PlayoutResult;
use iomrascalai::playout::factory;
use iomrascalai::random::Rand;

#[test]
fn should_add_the_passed_moves_as_the_first_move() {
    let mut board = Board::new(9, 13, Ruleset::KgsChinese);
    let mut rng = Rand::from_seed(7);
    let playout = factory(Some("light".to_string()), Config::default());
    let first = Move::Play(Color::Black, 1, 1);
    let result = playout.run(&mut board, Some(&first), &mut rng);
    assert_eq!(first, result.moves()[0]);
}

#[test]
fn max_moves() {
    let playout = factory(Some("light".to_string()), Config::default());
    assert_eq!(1083, playout.max_moves(19));
}

#[test]
fn a_playout_from_a_finished_game_plays_nothing_and_reports_the_winner() {
    let mut board = Board::new(5, 13, Ruleset::KgsChinese);
    board.play_move(Move::Pass(Color::Black)).unwrap();
    board.play_move(Move::Pass(Color::White)).unwrap();
    let expected = board.winner();
    let mut rng = Rand::from_seed(3);
    let playout = Playout::new(&Config::default());
    let result = playout.run(&mut board, None, &mut rng);
    assert_eq!(0, result.moves().len());
    assert_eq!(expected, result.winner());
    // An empty 5x5 board is decided by komi alone.
    assert_eq!(Color::White, expected);
}

#[test]
fn a_playout_stays_within_the_move_cap_and_plays_only_legal_moves() {
    let mut board = Board::new(3, 1, Ruleset::KgsChinese);
    let mut replay = Board::new(3, 1, Ruleset::KgsChinese);
    let mut rng = Rand::from_seed(11);
    let playout = Playout::new(&Config::default());
    let result = playout.run(&mut board, None, &mut rng);
    assert!(result.moves().len() <= playout.max_moves(3));
    for m in result.moves().iter() {
        assert!(replay.check_move(*m).is_ok());
        replay.play_move(*m).unwrap();
    }
}

#[test]
fn the_factory_selects_the_policy_by_name() {
    assert_eq!(
        factory(Some("light".to_string()), Config::default()).kind,
        PlayoutKind::NoEyes
    );
    assert_eq!(
        factory(Some("heavy".to_string()), Config::default()).kind,
        PlayoutKind::NoSelfAtari
    );
    assert_eq!(factory(None, Config::default()).kind, PlayoutKind::NoSelfAtari);
}

#[test]
fn playout_results_hand_back_what_they_were_built_from() {
    let moves = vec![Move::Play(Color::Black, 1, 1), Move::Pass(Color::White)];
    let result = PlayoutResult::new(moves.clone(), Color::Black);
    assert_eq!(&moves, result.moves());
    assert_eq!(Color::Black, result.winner());
}

#[test]
fn the_fuller_policy_checks_atari_but_neither_reads_ladders() {
    let full = Playout::new(&Config::default());
    assert!(!full.check_for_ladders());
    assert!(full.check_for_atari());
    assert_eq!("no-self-atari", full.playout_type());
    let light = factory(Some("light".to_string()), Config::default());
    assert!(!light.check_for_ladders());
    assert!(!light.check_for_atari());
}

#[test]
fn carried_patterns_bias_which_candidate_the_scan_prefers() {
    // An all-empty 3x3 pattern (no spaces) matches only where all eight
    // neighbours are on the board and empty: the single interior point of a
    // fresh 3x3 board, the fifth vacant point in grid order.  The random
    // scan starts from the pattern hit, so whatever the generator draws,
    // none of the four earlier points can come back.
    let rows: Vec<Vec<char>> = vec![
        ".".repeat(3).chars().collect(),
        ".".repeat(3).chars().collect(),
        ".".repeat(3).chars().collect(),
    ];
    let pattern = iomrascalai::patterns::Pattern::new(rows);
    let playout = Playout::with_patterns(PlayoutKind::NoEyes, vec![pattern]);
    let board = Board::new(3, 1, Ruleset::KgsChinese);
    let early = [
        Move::Play(Color::Black, 1, 1),
        Move::Play(Color::Black, 2, 1),
        Move::Play(Color::Black, 3, 1),
        Move::Play(Color::Black, 1, 2),
    ];
    for seed in 0..20u64 {
        let mut rng = Rand::from_seed(seed);
        let m = playout.select_move(&board, &mut rng);
        assert!(early.iter().all(|e| *e != m));
    }
}

#[test]
fn the_fuller_policy_rescues_a_chain_in_atari() {
    // Black's two-stone chain on the bottom edge is down to the single
    // liberty at (3, 1); filling it leaves two liberties, so the rescue is
    // the only candidate and must be played.
    let mut board = Board::new(4, 1, Ruleset::KgsChinese);
    board.play_move(Move::Play(Color::Black, 1, 1)).unwrap();
    board.play_move(Move::Play(Color::White, 1, 2)).unwrap();
    board.play_move(Move::Play(Color::Black, 2, 1)).unwrap();
    board.play_move(Move::Play(Color::White, 2, 2)).unwrap();
    let playout = Playout::new(&Config::default());
    let mut rng = Rand::from_seed(5);
    let m = playout.select_move(&board, &mut rng);
    assert_eq!(Move::Play(Color::Black, 3, 1), m);
}
