use iomrascalai::board::Board;
use iomrascalai::board::Color;
use iomrascalai::board::Coord;
use iomrascalai::board::Ruleset;
use iomrascalai::patterns::Pattern;

fn rows(a: &str, b: &str, c: &str) -> Vec<Vec<char>> {
    vec![a.chars().collect(), b.chars().collect(), c.chars().collect()]
}

#[test]
fn an_all_wildcard_pattern_matches_anywhere_in_the_middle() {
    let pattern = Pattern::new(rows("???", "???", "???"));
    let board = Board::new(5, 13, Ruleset::KgsChinese);
    assert!(pattern.matches(&board, &Coord::new(3, 3)));
}

#[test]
fn a_wildcard_pattern_fails_on_the_edge_without_spaces() {
    let pattern = Pattern::new(rows("???", "???", "???"));
    let board = Board::new(5, 13, Ruleset::KgsChinese);
    // At the corner, some neighbours are off the board, and only a space
    // matches an off-board point.
    assert!(!pattern.matches(&board, &Coord::new(1, 1)));
}

#[test]
fn a_stone_requirement_is_checked_against_the_board() {
    // The top-middle entry of the pattern grid speaks about the point
    // directly above: require a black stone there.
    let pattern = Pattern::new(rows("?X?", "???", "???"));
    let mut board = Board::new(5, 13, Ruleset::KgsChinese);
    assert!(!pattern.matches(&board, &Coord::new(3, 3)));
    board = board.play(Color::Black, 3, 4);
    assert!(pattern.matches(&board, &Coord::new(3, 3)));
}

#[test]
fn swap_exchanges_the_colors() {
    let pattern = Pattern::new(rows("Xx?", "Oo.", "   "));
    let swapped = pattern.swap();
    assert_eq!(swapped.vec[0], vec!['O', 'o', '?']);
    assert_eq!(swapped.vec[1], vec!['X', 'x', '.']);
    assert_eq!(swapped.vec[2], vec![' ', ' ', ' ']);
}

#[test]
fn rotating_a_quarter_turn_moves_the_columns_to_rows() {
    let pattern = Pattern::new(rows("abc", "def", "ghi"));
    let rotated = pattern.rotated90();
    assert_eq!(rotated.vec[0], vec!['g', 'd', 'a']);
    assert_eq!(rotated.vec[1], vec!['h', 'e', 'b']);
    assert_eq!(rotated.vec[2], vec!['i', 'f', 'c']);
}

#[test]
fn expand_yields_the_twelve_variants() {
    let pattern = Pattern::new(rows("X??", "???", "???"));
    let expanded = pattern.expand();
    assert_eq!(12, expanded.len());
    assert_eq!(expanded[0].vec, pattern.vec);
}
