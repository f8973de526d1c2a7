use iomrascalai::board::Color;
use iomrascalai::board::Move;
use iomrascalai::board::Ruleset;
use iomrascalai::config::Config;
use iomrascalai::game::Game;
use iomrascalai::rave::Node;

fn config() -> Config {
    Config::default()
}

#[test]
fn test_root_expands_the_children() {
    let game = Game::new(2, (0.5f32 * 2.0) as i32, Ruleset::KgsChinese);
    let root = Node::root(&game, Color::Black, config());
    assert_eq!(4, root.children.len());
}

#[test]
fn test_expand_doesnt_add_children_to_terminal_nodes() {
    let mut game = Game::new(5, 13, Ruleset::KgsChinese);
    game = game.play(Move::Pass(Color::Black)).unwrap();
    game = game.play(Move::Pass(Color::White)).unwrap();
    let mut node = Node::new(Move::Pass(Color::Black), config());
    let board = game.board();
    node.expand(&board);
    assert_eq!(0, node.children.len());
}

#[test]
fn test_expand_doesnt_add_children_if_threshold_not_met() {
    let game = Game::new(2, 1, Ruleset::KgsChinese);
    let mut node = Node::new(Move::Pass(Color::Black), config());
    node.plays = 0;
    let board = game.board();
    node.expand(&board);
    assert_eq!(0, node.children.len());
}

#[test]
fn test_expand_adds_children_if_threshold_is_met() {
    let game = Game::new(2, 1, Ruleset::KgsChinese);
    let mut node = Node::new(Move::Pass(Color::Black), config());
    node.plays = 2;
    let board = game.board();
    node.expand(&board);
    assert_eq!(4, node.children.len());
}

#[test]
fn test_expand_sets_the_descendant_count_if_the_node_was_expanded() {
    let game = Game::new(5, 13, Ruleset::KgsChinese);
    let board = game.board();
    let mut node = Node::new(Move::Pass(Color::Black), config());
    node.expand(&board);
    assert_eq!(25, node.descendants);
}

#[test]
fn expand_doesnt_add_pass_before_the_endgame() {
    let game = Game::new(5, 13, Ruleset::KgsChinese);
    let board = game.board();
    let mut node = Node::new(Move::Pass(Color::Black), config());
    node.expand(&board);
    let found_pass = node.children.iter().any(|node| node.m().is_pass());
    assert!(!found_pass);
}

#[test]
fn expand_withholds_pass_from_the_losing_side_when_the_aftermath_is_played_out() {
    // Past the opening on a 2x2 board, with black holding the whole board:
    // white is behind, so with the aftermath played out no pass is offered.
    let mut aftermath = Config::default();
    aftermath.play_out_aftermath = true;
    let mut game = Game::new(2, 0, Ruleset::KgsChinese);
    game = game.play(Move::Play(Color::Black, 1, 1)).unwrap();
    game = game.play(Move::Pass(Color::White)).unwrap();
    game = game.play(Move::Play(Color::Black, 2, 2)).unwrap();
    let board = game.board();
    let mut node = Node::new(Move::Pass(Color::Black), aftermath);
    node.expand(&board);
    let found_pass = node.children.iter().any(|node| node.m().is_pass());
    assert!(!found_pass);
}

#[test]
fn test_expand_root_sets_the_correct_descendant_count_on_the_root() {
    let game = Game::new(5, 13, Ruleset::KgsChinese);
    let mut root = Node::new(Move::Pass(Color::Black), config());
    root.expand_root(&game);
    assert_eq!(25, root.descendants);
}

#[test]
fn expand_root_doesnt_add_pass_before_the_endgame() {
    let game = Game::new(5, 13, Ruleset::KgsChinese);
    let mut node = Node::new(Move::Pass(Color::Black), config());
    node.expand_root(&game);
    let found_pass = node.children.iter().any(|node| node.m().is_pass());
    assert!(!found_pass);
}

#[test]
fn test_record_on_path_only_records_wins_for_the_correct_color() {
    let config = config();
    let grandchild = Node::new(Move::Pass(Color::Black), config.clone());
    let mut child = Node::new(Move::Pass(Color::White), config.clone());
    child.children = vec![grandchild];
    let mut root = Node::new(Move::Pass(Color::Black), config.clone());
    root.children = vec![child];

    root.record_on_path(&vec![0, 0], Color::Black, 0);
    assert_eq!(6, root.wins);
    assert_eq!(5, root.children[0].wins);
    assert_eq!(6, root.children[0].children[0].wins);

    root.record_on_path(&vec![0, 0], Color::White, 0);
    assert_eq!(6, root.wins);
    assert_eq!(6, root.children[0].wins);
    assert_eq!(6, root.children[0].children[0].wins);
}

#[test]
fn test_record_on_path_updates_the_descendant_counts() {
    let mut grandchild = Node::new(Move::Pass(Color::Black), config().clone());
    // The leaf already has the correct value set
    grandchild.descendants = 5;
    let mut child = Node::new(Move::Pass(Color::White), config().clone());
    child.children = vec![grandchild];
    child.descendants = 1;
    let mut root = Node::new(Move::Pass(Color::Black), config().clone());
    root.children = vec![child];
    root.descendants = 2;

    root.record_on_path(&vec![0, 0], Color::Black, 5);
    assert_eq!(7, root.descendants);
    assert_eq!(6, root.children[0].descendants);
    assert_eq!(5, root.children[0].children[0].descendants);
}

#[test]
fn test_find_child_returns_the_correct_child() {
    let mut root = Node::new(Move::Pass(Color::Black), config().clone());
    let child = Node::new(Move::Play(Color::White, 1, 1), config().clone());
    let sibling_one = Node::new(Move::Play(Color::Black, 5, 5), config().clone());
    let sibling_two = Node::new(Move::Play(Color::Black, 3, 7), config().clone());
    let expected = Node::new(Move::Play(Color::White, 1, 1), config().clone());
    root.children = vec![sibling_one, child, sibling_two];
    assert_eq!(&expected, root.find_child(Move::Play(Color::White, 1, 1)));
}

#[test]
fn test_new_sets_the_descendats_to_zero() {
    let node = Node::new(Move::Pass(Color::Black), config());
    assert_eq!(0, node.descendants);
}

#[test]
fn remove_illegal_children_drops_an_occupied_point() {
    let mut game = Game::new(3, 1, Ruleset::KgsChinese);
    game = game.play(Move::Play(Color::Black, 2, 2)).unwrap();
    let mut node = Node::new(Move::Pass(Color::Black), config());
    node.children = vec![
        Node::new(Move::Play(Color::White, 2, 2), config()),
        Node::new(Move::Play(Color::White, 1, 1), config()),
    ];
    node.remove_illegal_children(&game);
    assert_eq!(1, node.children.len());
    assert_eq!(node.children[0].m(), Move::Play(Color::White, 1, 1));
}
