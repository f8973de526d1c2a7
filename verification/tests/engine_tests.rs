use iomrascalai::board::Color;
use iomrascalai::board::Move;
use iomrascalai::board::Ruleset;
use iomrascalai::config::Config;
use iomrascalai::engine::EngineImpl;
use iomrascalai::engine::UctEngine;
use iomrascalai::game::Game;
use iomrascalai::uct::Node;

#[test]
fn the_setup_reports_an_immediate_pass_on_a_finished_game() {
    let mut game = Game::new(5, 13, Ruleset::KgsChinese);
    game = game.play(Move::Pass(Color::Black)).unwrap();
    game = game.play(Move::Pass(Color::White)).unwrap();
    let mut engine = UctEngine::new(Config::default());
    let immediate = engine.gen_move_setup(Color::Black, &game);
    assert_eq!(Some(Move::Pass(Color::Black)), immediate);
}

#[test]
fn a_search_round_trip_grows_the_tree_and_keeps_it_consistent() {
    let game = Game::new(2, 1, Ruleset::KgsChinese);
    let mut engine = UctEngine::new(Config::default());
    assert_eq!(None, engine.gen_move_setup(Color::Black, &game));
    // The bootstrap message: an empty path and nothing recorded yet.
    let task = engine.step(&game, &vec![], Color::Empty, 0);
    let (path, moves, _expanded, added) = task.unwrap();
    assert_eq!(path.len(), moves.len());
    // Feed the result back as a worker would; a task coming back proves the
    // tree took the previous backpropagation and stayed consistent.
    let next = engine.step(&game, &path, Color::Black, added);
    let (path2, _moves2, _expanded2, added2) = next.unwrap();
    // Recording the still-pending result restores the exact bookkeeping.
    engine.root.record_on_path(&path2, Color::White, added2);
    assert!(engine.root.is_well_formed());
}

#[test]
fn a_mostly_lost_search_resigns_when_the_position_is_not_ours() {
    // White holds the empty 2x2 board through komi, and the only explored
    // line almost always loses: black must resign.
    let game = Game::new(2, 1, Ruleset::KgsChinese);
    let mut engine = UctEngine::new(Config::default());
    engine.root = Node::root(&game, Color::Black, false);
    engine.root.children[0].wins = 0;
    engine.root.children[0].plays = 50;
    let (m, _playouts) = engine.finish(&game, Color::Black);
    assert_eq!(Move::Resign(Color::Black), m);
}

#[test]
fn a_mostly_lost_search_passes_when_the_position_is_already_ours() {
    // With komi in black's favor, black already holds the empty board, so
    // a mostly lost search passes instead of resigning.
    let game = Game::new(2, -1, Ruleset::KgsChinese);
    let mut engine = UctEngine::new(Config::default());
    engine.root = Node::root(&game, Color::Black, false);
    engine.root.children[0].wins = 0;
    engine.root.children[0].plays = 50;
    let (m, _playouts) = engine.finish(&game, Color::Black);
    assert_eq!(Move::Pass(Color::Black), m);
}

#[test]
fn a_confident_search_plays_the_best_childs_move() {
    let game = Game::new(2, 1, Ruleset::KgsChinese);
    let mut engine = UctEngine::new(Config::default());
    engine.root = Node::root(&game, Color::Black, false);
    let best_move = engine.root.children[1].m();
    engine.root.children[1].wins = 40;
    engine.root.children[1].plays = 50;
    let (m, _playouts) = engine.finish(&game, Color::Black);
    assert_eq!(best_move, m);
}

#[test]
fn the_full_engine_passes_at_once_when_the_position_is_decided() {
    let game = Game::new(2, 1, Ruleset::KgsChinese);
    let mut engine = EngineImpl::new(Config::default());
    assert_eq!(None, engine.genmove_setup(Color::Black, &game));
    let (m, _playouts) = engine.finish(&game, Color::Black, true);
    assert_eq!(Move::Pass(Color::Black), m);
}

#[test]
fn the_full_engine_merges_playout_ownership_while_stepping() {
    let mut scored = Game::new(2, 1, Ruleset::KgsChinese);
    scored = scored.play(Move::Play(Color::Black, 1, 1)).unwrap();
    let score = scored.board().score();
    let game = Game::new(2, 1, Ruleset::KgsChinese);
    let mut engine = EngineImpl::new(Config::default());
    assert_eq!(None, engine.genmove_setup(Color::Black, &game));
    let task = engine.step(&game, &vec![], Color::Empty, 0, &score);
    assert!(task.is_some());
    // One sample is merged at every point: the prior (1, 1, 100) gains a
    // black sample at the stone's point.
    assert_eq!((2, 1, 100), engine.ownership().stats[0]);
}

#[test]
fn rebuilding_the_root_respects_the_aftermath_policy() {
    // White is behind with no legal play on this board: with the aftermath
    // played out the rebuilt root has nothing to simulate, so the search
    // passes at once; without it the pass candidate keeps the search alive.
    let mut game = Game::new(2, 0, Ruleset::KgsChinese);
    game = game.play(Move::Play(Color::Black, 1, 1)).unwrap();
    game = game.play(Move::Pass(Color::White)).unwrap();
    game = game.play(Move::Play(Color::Black, 2, 2)).unwrap();
    let mut aftermath = Config::default();
    aftermath.play_out_aftermath = true;
    aftermath.reuse_subtree = false;
    let mut engine = UctEngine::new(aftermath);
    assert_eq!(
        Some(Move::Pass(Color::White)),
        engine.gen_move_setup(Color::White, &game)
    );
    let mut plain = Config::default();
    plain.reuse_subtree = false;
    let mut engine = UctEngine::new(plain);
    assert_eq!(None, engine.gen_move_setup(Color::White, &game));
}

#[test]
fn reset_forgets_the_tree() {
    let game = Game::new(2, 1, Ruleset::KgsChinese);
    let mut engine = UctEngine::new(Config::default());
    engine.gen_move_setup(Color::Black, &game);
    assert!(engine.root.children.len() > 0);
    engine.reset();
    assert_eq!(0, engine.root.children.len());
    assert_eq!(Move::NoMove, engine.root.m());
}
