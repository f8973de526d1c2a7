use iomrascalai::board::Color;
use iomrascalai::board::Move;
use iomrascalai::board::Ruleset;
use iomrascalai::game::Game;
use iomrascalai::uct::Node;

fn game2() -> Game {
    Game::new(2, (0.5f32 * 2.0) as i32, Ruleset::KgsChinese)
}

#[test]
fn root_expands_the_children() {
    let game = game2();
    let root = Node::root(&game, Color::Black, false);
    assert_eq!(4, root.children.len());
}

#[test]
fn expand_doesnt_add_children_to_terminal_nodes() {
    let mut game = Game::new(5, 13, Ruleset::KgsChinese);
    game = game.play(Move::Pass(Color::Black)).unwrap();
    game = game.play(Move::Pass(Color::White)).unwrap();
    let mut node = Node::new(Move::Pass(Color::Black));
    let board = game.board();
    node.expand(&board, 1, false);
    assert_eq!(0, node.children.len());
}

#[test]
fn expand_doesnt_add_children_if_threshold_not_met() {
    let game = game2();
    let mut node = Node::new(Move::Pass(Color::Black));
    let board = game.board();
    node.expand(&board, 2, false);
    assert_eq!(0, node.children.len());
}

#[test]
fn expand_adds_children_if_threshold_is_met() {
    let game = game2();
    let mut node = Node::new(Move::Pass(Color::Black));
    node.plays = 2;
    let board = game.board();
    node.expand(&board, 2, false);
    assert_eq!(4, node.children.len());
}

#[test]
fn unvisited_children_are_explored_first() {
    let game = game2();
    let mut root = Node::root(&game, Color::Black, false);
    for _ in 0..4 {
        root.find_leaf_and_expand(&game, 1, false);
    }
    assert_eq!(4, root.children.len());
    assert!(root.children.iter().all(|n| n.plays == 1));
}

#[test]
fn find_leaf_and_expand_expands_the_leaves() {
    let game = game2();
    let mut root = Node::root(&game, Color::Black, false);
    for _ in 0..4 {
        root.find_leaf_and_expand(&game, 1, false);
    }
    assert_eq!(4, root.children.len());
    assert!(root.children.iter().all(|n| n.children.len() == 3));
}

#[test]
fn find_leaf_and_expand_sets_play_on_the_root() {
    let game = game2();
    let mut root = Node::root(&game, Color::Black, false);
    root.find_leaf_and_expand(&game, 1, false);
    assert_eq!(2, root.plays);
}

#[test]
fn find_leaf_and_expand_returns_the_number_of_nodes_added() {
    let game = game2();
    let mut root = Node::root(&game, Color::Black, false);
    let (_, _, _, count) = root.find_leaf_and_expand(&game, 1, false);
    assert_eq!(3, count);
}

#[test]
fn the_root_needs_to_be_initialized_with_1_plays_for_correct_uct_calculations() {
    let game = game2();
    let root = Node::root(&game, Color::Black, false);
    assert_eq!(1, root.plays);
    assert_eq!(1, root.wins);
}

#[test]
fn record_on_path_only_records_wins_for_the_correct_color() {
    let grandchild = Node::new(Move::Pass(Color::Black));
    let mut child = Node::new(Move::Pass(Color::White));
    child.children = vec![grandchild];
    let mut root = Node::new(Move::Pass(Color::Black));
    root.children = vec![child];

    root.record_on_path(&vec![0, 0], Color::Black, 0);
    assert_eq!(1, root.wins);
    assert_eq!(0, root.children[0].wins);
    assert_eq!(1, root.children[0].children[0].wins);

    root.record_on_path(&vec![0, 0], Color::White, 0);
    assert_eq!(1, root.wins);
    assert_eq!(1, root.children[0].wins);
    assert_eq!(1, root.children[0].children[0].wins);
}

#[test]
fn record_on_path_updates_the_descendant_counts() {
    let mut grandchild = Node::new(Move::Pass(Color::Black));
    // The leaf already has the correct value set
    grandchild.descendants = 5;
    let mut child = Node::new(Move::Pass(Color::White));
    child.children = vec![grandchild];
    child.descendants = 1;
    let mut root = Node::new(Move::Pass(Color::Black));
    root.children = vec![child];
    root.descendants = 2;

    root.record_on_path(&vec![0, 0], Color::Black, 5);
    assert_eq!(7, root.descendants);
    assert_eq!(6, root.children[0].descendants);
    assert_eq!(5, root.children[0].children[0].descendants);
}

#[test]
fn find_child_returns_the_correct_child() {
    let mut root = Node::new(Move::Pass(Color::Black));
    let child = Node::new(Move::Play(Color::White, 1, 1));
    root.children = vec![
        Node::new(Move::Play(Color::Black, 5, 5)),
        child.clone(),
        Node::new(Move::Play(Color::Black, 3, 7)),
    ];
    assert_eq!(&child, root.find_child(Move::Play(Color::White, 1, 1)));
}

#[test]
fn new_sets_the_descendats_to_zero() {
    let node = Node::new(Move::Pass(Color::Black));
    assert_eq!(0, node.descendants);
}

#[test]
fn expand_root_sets_the_correct_descendant_count_on_the_root() {
    let game = Game::new(5, 13, Ruleset::KgsChinese);
    let mut root = Node::new(Move::Pass(Color::Black));
    root.expand_root(&game, false);
    assert_eq!(25, root.descendants);
}

#[test]
fn expand_sets_the_descendant_count_if_the_node_was_expanded() {
    let game = Game::new(5, 13, Ruleset::KgsChinese);
    let board = game.board();
    let mut node = Node::new(Move::Pass(Color::Black));
    node.expand(&board, 0, false);
    assert_eq!(25, node.descendants);
}

#[test]
fn the_tree_invariant_holds_after_a_full_select_and_record_cycle() {
    let game = game2();
    let mut root = Node::root(&game, Color::Black, false);
    assert!(root.is_well_formed());
    for _ in 0..10 {
        let (path, _moves, _expanded, added) = root.find_leaf_and_expand(&game, 1, false);
        root.record_on_path(&path, Color::Black, added);
        assert!(root.is_well_formed());
    }
}

#[test]
fn a_pass_is_offered_once_the_opening_is_over() {
    // Two moves on a 2x2 board put the position past the opening phase.
    let mut game = Game::new(2, 0, Ruleset::KgsChinese);
    game = game.play(Move::Play(Color::Black, 1, 1)).unwrap();
    game = game.play(Move::Play(Color::White, 2, 2)).unwrap();
    let mut node = Node::new(Move::Pass(Color::White));
    let board = game.board();
    node.expand(&board, 0, false);
    let found_pass = node.children.iter().any(|n| n.m().is_pass());
    assert!(found_pass);
}

#[test]
fn no_pass_is_offered_before_the_endgame() {
    let game = Game::new(5, 13, Ruleset::KgsChinese);
    let mut node = Node::new(Move::Pass(Color::Black));
    let board = game.board();
    node.expand(&board, 0, false);
    let found_pass = node.children.iter().any(|n| n.m().is_pass());
    assert!(!found_pass);
}

/// Past the opening on a 2x2 board, with black holding everything: white,
/// to move, is behind (and has no legal play).
fn white_behind() -> Game {
    let mut game = Game::new(2, 0, Ruleset::KgsChinese);
    game = game.play(Move::Play(Color::Black, 1, 1)).unwrap();
    game = game.play(Move::Pass(Color::White)).unwrap();
    game = game.play(Move::Play(Color::Black, 2, 2)).unwrap();
    game
}

/// Past the opening with komi in black's favor: black, to move, is winning.
fn black_winning() -> Game {
    let mut game = Game::new(2, -1, Ruleset::KgsChinese);
    game = game.play(Move::Play(Color::Black, 1, 1)).unwrap();
    game = game.play(Move::Play(Color::White, 2, 2)).unwrap();
    game
}

#[test]
fn expand_adds_pass_if_we_are_losing_and_dont_playout_the_aftermath() {
    let game = white_behind();
    let board = game.board();
    let mut node = Node::new(Move::Pass(Color::White));
    node.expand(&board, 0, false);
    let found_pass = node.children.iter().any(|n| n.m().is_pass());
    assert!(found_pass);
}

#[test]
fn expand_doesnt_add_pass_if_we_are_losing_and_we_playout_the_aftermath() {
    let game = white_behind();
    let board = game.board();
    let mut node = Node::new(Move::Pass(Color::White));
    node.expand(&board, 0, true);
    let found_pass = node.children.iter().any(|n| n.m().is_pass());
    assert!(!found_pass);
}

#[test]
fn expand_adds_pass_if_we_are_winning_and_we_are_playing_out_the_aftermath() {
    let game = black_winning();
    let board = game.board();
    let mut node = Node::new(Move::Pass(Color::Black));
    node.expand(&board, 0, true);
    let found_pass = node.children.iter().any(|n| n.m().is_pass());
    assert!(found_pass);
}

#[test]
fn expand_root_adds_pass_if_we_are_losing_and_dont_playout_the_aftermath() {
    let game = white_behind();
    let mut node = Node::new(Move::Pass(Color::White));
    node.expand_root(&game, false);
    let found_pass = node.children.iter().any(|n| n.m().is_pass());
    assert!(found_pass);
}

#[test]
fn expand_root_doesnt_add_pass_if_we_are_losing_and_we_playout_the_aftermath() {
    let game = white_behind();
    let mut node = Node::new(Move::Pass(Color::White));
    node.expand_root(&game, true);
    let found_pass = node.children.iter().any(|n| n.m().is_pass());
    assert!(!found_pass);
}

#[test]
fn expand_root_adds_pass_if_we_are_winning_and_we_are_playing_out_the_aftermath() {
    let game = black_winning();
    let mut node = Node::new(Move::Pass(Color::Black));
    node.expand_root(&game, true);
    let found_pass = node.children.iter().any(|n| n.m().is_pass());
    assert!(found_pass);
}

#[test]
fn a_fresh_root_honors_the_aftermath_pass_policy() {
    // White is behind with no legal play: with the aftermath played out the
    // rebuilt root gets no pass child (nothing at all); without it, the
    // pass is the one candidate.
    let game = white_behind();
    let with_aftermath = Node::root(&game, Color::White, true);
    assert_eq!(0, with_aftermath.children.len());
    let without_aftermath = Node::root(&game, Color::White, false);
    assert_eq!(1, without_aftermath.children.len());
    assert!(without_aftermath.children[0].m().is_pass());
}

#[test]
fn remove_illegal_children_removes_pass_if_the_other_color_wins_with_aftermath_turned_on() {
    let game = white_behind();
    let mut node = Node::new(Move::Pass(Color::Black));
    node.children = vec![Node::new(Move::Pass(Color::White))];
    node.descendants = 1;
    node.remove_illegal_children(&game, true);
    let found_pass = node.children.iter().any(|n| n.m().is_pass());
    assert!(!found_pass);
}

#[test]
fn remove_illegal_children_doesnt_remove_pass_if_we_are_winning() {
    let game = black_winning();
    let mut node = Node::new(Move::Pass(Color::White));
    node.children = vec![Node::new(Move::Pass(Color::Black))];
    node.descendants = 1;
    node.remove_illegal_children(&game, true);
    let found_pass = node.children.iter().any(|n| n.m().is_pass());
    assert!(found_pass);
}

#[test]
fn remove_illegal_children_doesnt_remove_pass_if_we_are_losing_but_dont_playout_aftermath() {
    let game = white_behind();
    let mut node = Node::new(Move::Pass(Color::Black));
    node.children = vec![Node::new(Move::Pass(Color::White))];
    node.descendants = 1;
    node.remove_illegal_children(&game, false);
    let found_pass = node.children.iter().any(|n| n.m().is_pass());
    assert!(found_pass);
}

#[test]
fn superko_violations_never_appear_among_expanded_children() {
    // Build a ko on a 3x3 board: black has just captured on the ko point,
    // so white retaking at (2, 1) would repeat the position.
    let mut game = Game::new(3, 0, Ruleset::KgsChinese);
    game = game.play(Move::Play(Color::Black, 3, 1)).unwrap();
    game = game.play(Move::Play(Color::White, 1, 2)).unwrap();
    game = game.play(Move::Play(Color::Black, 2, 2)).unwrap();
    game = game.play(Move::Play(Color::White, 2, 1)).unwrap();
    game = game.play(Move::Play(Color::Black, 1, 1)).unwrap();
    let root = Node::root(&game, Color::White, false);
    assert!(root.children.len() > 0);
    assert!(root
        .children
        .iter()
        .all(|n| n.m() != Move::Play(Color::White, 2, 1)));
}

#[test]
fn reusing_a_subtree_prunes_children_that_became_illegal() {
    // The tree still offers White the point Black just took; pointing the
    // tree at the current game drops that child and keeps the legal one.
    let mut game = Game::new(3, 1, Ruleset::KgsChinese);
    game = game.play(Move::Play(Color::Black, 2, 2)).unwrap();
    let mut root = Node::new(Move::NoMove);
    root.children = vec![
        Node::new(Move::Play(Color::White, 2, 2)),
        Node::new(Move::Play(Color::White, 1, 1)),
    ];
    root.descendants = 2;
    let reused = root.find_new_root(&game, Color::White, game.moves().len(), false);
    assert_eq!(1, reused.children.len());
    assert_eq!(reused.children[0].m(), Move::Play(Color::White, 1, 1));
}

#[test]
fn best_prefers_the_higher_win_ratio_then_the_higher_play_count() {
    let mut root = Node::new(Move::Pass(Color::Black));
    let mut a = Node::new(Move::Play(Color::Black, 1, 1));
    a.wins = 1;
    a.plays = 2;
    let mut b = Node::new(Move::Play(Color::Black, 2, 1));
    b.wins = 2;
    b.plays = 4;
    let mut c = Node::new(Move::Play(Color::Black, 1, 2));
    c.wins = 1;
    c.plays = 4;
    root.children = vec![a, b, c];
    // Equal ratios at indices 0 and 1: the better-played child wins.
    assert_eq!(root.best().m(), Move::Play(Color::Black, 2, 1));
}

#[test]
fn mostly_losses_holds_exactly_at_the_cutoff() {
    let mut root = Node::new(Move::Pass(Color::Black));
    let mut child = Node::new(Move::Play(Color::Black, 1, 1));
    child.wins = 2;
    child.plays = 25;
    root.children = vec![child];
    // 2/25 = 80 permille exactly.
    assert!(root.mostly_losses(80));
    root.children[0].wins = 3;
    assert!(!root.mostly_losses(80));
}
