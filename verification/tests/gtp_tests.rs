use iomrascalai::board::Color;
use iomrascalai::game::Game;
use iomrascalai::board::Ruleset;
use iomrascalai::gtp::KnownCommand;
use iomrascalai::gtp::command_name;
use iomrascalai::gtp::enumify;
use iomrascalai::gtp::err;
use iomrascalai::gtp::ok;
use iomrascalai::gtp::parse_color;
use iomrascalai::gtp::parse_komi2;
use iomrascalai::gtp::parse_u64;
use iomrascalai::gtp::parse_vertex;
use iomrascalai::gtp::preprocess;
use iomrascalai::gtp::tokenize;
use iomrascalai::gtp::vertex_to_gtp;
use iomrascalai::timer::Timer;

#[test]
fn err_wraps_the_text_in_an_error_reply() {
    assert_eq!(err("empty command"), Err("empty command".to_string()));
}

#[test]
fn ok_wraps_the_text_in_a_success_reply() {
    assert_eq!(ok("true"), Ok("true".to_string()));
}

#[test]
fn preprocess_cuts_comments_normalizes_tabs_and_trims() {
    assert_eq!(preprocess(b"  play\tb  a1 # a comment\n"), b"play b  a1".to_vec());
    assert_eq!(preprocess(b"# nothing here"), Vec::<u8>::new());
    assert_eq!(preprocess(b"\t\t"), Vec::<u8>::new());
}

#[test]
fn tokenize_splits_on_spaces() {
    let tokens = tokenize(&b"play b a1".to_vec());
    assert_eq!(3, tokens.len());
    assert_eq!(b"play".to_vec(), tokens[0]);
    assert_eq!(b"b".to_vec(), tokens[1]);
    assert_eq!(b"a1".to_vec(), tokens[2]);
}

#[test]
fn command_names_round_trip_through_enumify() {
    let all = [
        KnownCommand::BoardSize,
        KnownCommand::ClearBoard,
        KnownCommand::FinalScore,
        KnownCommand::GenMove,
        KnownCommand::KnownCommandQ,
        KnownCommand::Komi,
        KnownCommand::ListCommands,
        KnownCommand::LoadSgf,
        KnownCommand::Name,
        KnownCommand::Play,
        KnownCommand::ProtocolVersion,
        KnownCommand::Quit,
        KnownCommand::ShowBoard,
        KnownCommand::TimeLeft,
        KnownCommand::TimeSettings,
        KnownCommand::Version,
    ];
    for c in all {
        let name = command_name(c).as_bytes().to_vec();
        assert_eq!(Some(c), enumify(&name));
    }
}

#[test]
fn enumify_knows_every_command_and_nothing_else() {
    assert_eq!(Some(KnownCommand::Play), enumify(&b"play".to_vec()));
    assert_eq!(Some(KnownCommand::BoardSize), enumify(&b"boardsize".to_vec()));
    assert_eq!(
        Some(KnownCommand::ProtocolVersion),
        enumify(&b"protocol_version".to_vec())
    );
    assert_eq!(None, enumify(&b"XXX".to_vec()));
}

#[test]
fn parse_u64_reads_decimal_numbers_exactly() {
    assert_eq!(Some(0), parse_u64(b"0"));
    assert_eq!(Some(361), parse_u64(b"361"));
    assert_eq!(None, parse_u64(b""));
    assert_eq!(None, parse_u64(b"12a"));
    assert_eq!(None, parse_u64(b"99999999999999999999"));
}

#[test]
fn parse_vertex_reads_gtp_coordinates_and_skips_i() {
    assert_eq!(Some((1, 1)), parse_vertex(b"a1"));
    assert_eq!(Some((19, 19)), parse_vertex(b"t19"));
    assert_eq!(Some((9, 3)), parse_vertex(b"j3"));
    assert_eq!(Some((8, 2)), parse_vertex(b"H2"));
    assert_eq!(None, parse_vertex(b"i1"));
    assert_eq!(None, parse_vertex(b"a0"));
    assert_eq!(None, parse_vertex(b"a"));
}

#[test]
fn parse_color_accepts_both_spellings() {
    assert_eq!(Some(Color::Black), parse_color(&b"b".to_vec()));
    assert_eq!(Some(Color::Black), parse_color(&b"black".to_vec()));
    assert_eq!(Some(Color::White), parse_color(&b"W".to_vec()));
    assert_eq!(Some(Color::White), parse_color(&b"white".to_vec()));
    assert_eq!(None, parse_color(&b"green".to_vec()));
}

#[test]
fn parse_komi2_reads_half_points_exactly() {
    assert_eq!(Some(13), parse_komi2(b"6.5"));
    assert_eq!(Some(14), parse_komi2(b"7"));
    assert_eq!(Some(12), parse_komi2(b"6.0"));
    assert_eq!(Some(-1), parse_komi2(b"-0.5"));
    assert_eq!(None, parse_komi2(b"6.25"));
    assert_eq!(None, parse_komi2(b"six"));
}

#[test]
fn vertex_to_gtp_names_points_with_the_i_column_skipped() {
    assert_eq!("a1", vertex_to_gtp(1, 1).as_str());
    assert_eq!("t19", vertex_to_gtp(19, 19).as_str());
    assert_eq!("j9", vertex_to_gtp(9, 9).as_str());
}

#[test]
fn time_left_with_no_stones_is_main_time() {
    let mut timer = Timer::new();
    timer.update(30, 0);
    assert_eq!(30_000, timer.main_time_left());
}

#[test]
fn time_left_with_stones_is_byo_yomi() {
    let mut timer = Timer::new();
    timer.update(30, 1);
    assert_eq!(0, timer.main_time_left());
    assert_eq!(30_000, timer.byo_time_left());
    assert_eq!(1, timer.byo_stones_left());
}

#[test]
fn time_settings_are_installed_in_milliseconds() {
    let mut timer = Timer::new();
    timer.setup(30, 20, 10);
    assert_eq!(30_000, timer.main_time());
    assert_eq!(20_000, timer.byo_time());
    assert_eq!(10, timer.byo_stones());
}

#[test]
fn the_budget_shares_main_time_over_the_expected_moves() {
    let mut timer = Timer::new();
    timer.setup(30, 0, 0);
    let game = Game::new(9, 13, Ruleset::KgsChinese);
    // 81 vacant points: 81 / 2 + 10 = 50 expected moves.
    assert_eq!(30_000 / 50, timer.budget(&game));
}
