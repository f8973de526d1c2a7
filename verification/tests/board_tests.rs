use iomrascalai::board::Board;
use iomrascalai::board::Color;
use iomrascalai::board::IllegalMove;
use iomrascalai::board::Move;
use iomrascalai::board::Ruleset;

fn board19() -> Board {
    Board::new(19, (6.5f32 * 2.0) as i32, Ruleset::TrompTaylor)
}

#[test]
fn test_getting_a_valid_coord_returns_a_color() {
    let b = board19();

    assert!(b.get(1, 1).unwrap() == Color::Empty);
    assert!(b.get(10, 10).unwrap() == Color::Empty);
}

#[test]
fn test_getting_invalid_coordinates_returns_None() {
    let b = board19();
    assert!(b.get(14, 21) == None);
    assert!(b.get(21, 14) == None);
}

#[test]
fn test_19_19_is_a_valid_coordinate() {
    let b = board19();

    assert!(b.get(19, 19).unwrap() == Color::Empty);
}

#[test]
fn test_0_0_is_not_a_valid_coordinate() {
    let b = board19();

    assert!(b.get(0, 0) == None);
}

#[test]
fn test_play() {
    let mut b = board19();

    b = b.play(Color::White, 14, 14);
    assert!(b.get(14, 14).unwrap() == Color::White);
}

#[test]
fn capturing_a_surrounded_stone_empties_its_point() {
    let mut b = Board::new(2, 0, Ruleset::KgsChinese);
    b = b.play(Color::Black, 1, 1);
    b = b.play(Color::White, 1, 2);
    b = b.play(Color::White, 2, 1);
    assert_eq!(b.get(1, 1).unwrap(), Color::Empty);
    assert_eq!(b.get(1, 2).unwrap(), Color::White);
    assert_eq!(b.get(2, 1).unwrap(), Color::White);
}

#[test]
fn a_suicide_play_is_rejected() {
    let mut b = Board::new(2, 0, Ruleset::KgsChinese);
    assert!(b.play_move(Move::Play(Color::Black, 2, 1)).is_ok());
    assert!(b.play_move(Move::Play(Color::White, 2, 2)).is_ok());
    assert!(b.play_move(Move::Play(Color::Black, 1, 2)).is_ok());
    assert_eq!(
        b.check_move(Move::Play(Color::White, 1, 1)),
        Err(IllegalMove::SuicidePlay)
    );
}

#[test]
fn retaking_a_ko_at_once_is_a_superko_violation() {
    let mut b = Board::new(3, 0, Ruleset::KgsChinese);
    assert!(b.play_move(Move::Play(Color::Black, 3, 1)).is_ok());
    assert!(b.play_move(Move::Play(Color::White, 1, 2)).is_ok());
    assert!(b.play_move(Move::Play(Color::Black, 2, 2)).is_ok());
    assert!(b.play_move(Move::Play(Color::White, 2, 1)).is_ok());
    // Black captures the white stone on the ko point.
    assert!(b.play_move(Move::Play(Color::Black, 1, 1)).is_ok());
    assert_eq!(b.get(2, 1).unwrap(), Color::Empty);
    // Retaking at once would repeat the earlier position.
    assert_eq!(
        b.check_move(Move::Play(Color::White, 2, 1)),
        Err(IllegalMove::SuperKo)
    );
}

#[test]
fn playing_on_a_stone_is_rejected() {
    let mut b = Board::new(3, 1, Ruleset::KgsChinese);
    assert!(b.play_move(Move::Play(Color::Black, 2, 2)).is_ok());
    assert_eq!(
        b.check_move(Move::Play(Color::White, 2, 2)),
        Err(IllegalMove::IntersectionNotEmpty)
    );
}

#[test]
fn playing_out_of_turn_is_rejected() {
    let b = Board::new(3, 1, Ruleset::KgsChinese);
    assert_eq!(
        b.check_move(Move::Play(Color::White, 1, 1)),
        Err(IllegalMove::SamePlayerPlayedTwice)
    );
}

#[test]
fn two_passes_end_the_game_and_later_moves_are_rejected() {
    let mut b = Board::new(3, 1, Ruleset::KgsChinese);
    assert!(b.play_move(Move::Pass(Color::Black)).is_ok());
    assert!(!b.is_game_over());
    assert!(b.play_move(Move::Pass(Color::White)).is_ok());
    assert!(b.is_game_over());
    assert_eq!(
        b.check_move(Move::Play(Color::Black, 1, 1)),
        Err(IllegalMove::GameAlreadyOver)
    );
}

#[test]
fn white_wins_an_empty_board_by_komi() {
    let b = Board::new(2, 1, Ruleset::KgsChinese);
    assert_eq!(b.winner(), Color::White);
}

#[test]
fn black_wins_when_holding_the_whole_board() {
    let mut b = Board::new(2, 1, Ruleset::KgsChinese);
    b = b.play(Color::Black, 1, 1);
    // All empty points touch only black: the whole board is black area.
    assert_eq!(b.winner(), Color::Black);
}

#[test]
fn vacant_point_count_follows_the_stones() {
    let mut b = Board::new(19, 13, Ruleset::KgsChinese);
    assert_eq!(b.vacant_point_count(), 361);
    b = b.play(Color::Black, 1, 1);
    assert_eq!(b.vacant_point_count(), 360);
}

#[test]
fn scoring_an_even_position_is_a_tie_without_komi() {
    let mut b = Board::new(2, 0, Ruleset::KgsChinese);
    b = b.play(Color::Black, 1, 1);
    b = b.play(Color::White, 2, 2);
    // One stone each; the two empty points touch both colors.
    let score = b.score();
    assert_eq!(score.black_stones, 1);
    assert_eq!(score.white_stones, 1);
    assert_eq!(score.color(), Color::Empty);
}
