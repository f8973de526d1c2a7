use iomrascalai::board::Board;
use iomrascalai::board::Color;
use iomrascalai::board::Coord;
use iomrascalai::board::Ruleset;
use iomrascalai::ownership::OwnershipStatistics;

#[test]
fn a_fresh_point_is_undecided() {
    let stats = OwnershipStatistics::new(2);
    assert_eq!(Color::Empty, stats.owner(&Coord::new(1, 1)));
}

#[test]
fn a_point_off_the_board_answers_as_the_prior_does() {
    let stats = OwnershipStatistics::new(2);
    assert_eq!(Color::Empty, stats.owner(&Coord::new(9, 9)));
}

#[test]
fn ownership_needs_more_than_nine_tenths_of_the_samples() {
    // With one black stone on a 2x2 board, every point is black area.
    // Starting from the prior (1, 1, 100), black crosses the nine-tenths
    // line after exactly 909 samples: at 908 the share is exactly nine
    // tenths, which is not enough.
    let mut board = Board::new(2, 1, Ruleset::KgsChinese);
    board = board.play(Color::Black, 1, 1);
    let all_black = board.score();
    let mut stats = OwnershipStatistics::new(2);
    for _ in 0..908 {
        stats.merge(&all_black);
    }
    assert_eq!(Color::Empty, stats.owner(&Coord::new(1, 1)));
    stats.merge(&all_black);
    assert_eq!(Color::Black, stats.owner(&Coord::new(1, 1)));
}

#[test]
fn setup_resets_every_point_to_the_prior() {
    let mut board = Board::new(2, 1, Ruleset::KgsChinese);
    board = board.play(Color::Black, 1, 1);
    let all_black = board.score();
    let mut stats = OwnershipStatistics::new(2);
    for _ in 0..2000 {
        stats.merge(&all_black);
    }
    assert_eq!(Color::Black, stats.owner(&Coord::new(1, 1)));
    stats.setup();
    assert_eq!(Color::Empty, stats.owner(&Coord::new(1, 1)));
}

#[test]
fn the_default_entry_is_the_prior() {
    let stats = OwnershipStatistics::new(2);
    assert_eq!((1, 1, 100), stats.default_entry());
}

#[test]
fn gfx_lists_the_assigned_points_by_color() {
    let mut board = Board::new(2, 1, Ruleset::KgsChinese);
    board = board.play(Color::Black, 1, 1);
    let all_black = board.score();
    let mut stats = OwnershipStatistics::new(2);
    for _ in 0..2000 {
        stats.merge(&all_black);
    }
    let overlay = stats.gfx();
    assert!(overlay.starts_with("gogui-gfx:\nCLEAR\nBLACK"));
    assert!(overlay.contains("a1"));
}
