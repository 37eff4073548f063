use cgmath::point2;
use go_game::board_size::parse_board_size;
use go_game::event_loop::{needs_redraw, post_redraw, reset_redraw, RedrawFlag};
use go_game::game_controller::{ControllerOption, GameController};
use go_game::game_mode::{
    controller_from_name, controller_options_from_name, mode_from_name, mode_options, same_text,
    Controller, GameMode,
};
use go_game::go::{MoveRejection, Player};
use go_game::ogs_controller::OgsController;
use go_game::one_player_controller::OnePlayerController;
use go_game::two_player_controller::TwoPlayerController;

fn texts(options: &Vec<ControllerOption>) -> Vec<(String, Vec<String>)> {
    options.iter().map(|option| (option.name.clone(), option.values.clone())).collect()
}

fn table(rows: Vec<(&str, Vec<&str>)>) -> Vec<(String, Vec<String>)> {
    rows.into_iter()
        .map(|(name, values)| {
            (name.to_string(), values.into_iter().map(|value| value.to_string()).collect())
        })
        .collect()
}

#[test]
fn controller_option_keeps_name_and_values() {
    let option = ControllerOption::new("Clock", vec!["Blitz", "Rapid", "None"]);
    assert_eq!(option.name, "Clock");
    assert_eq!(option.values, vec!["Blitz", "Rapid", "None"]);
    let bare = ControllerOption::new("", vec![]);
    assert_eq!(bare.name, "");
    assert!(bare.values.is_empty());
}

#[test]
fn two_player_options() {
    assert_eq!(
        texts(&go_game::two_player_controller::options()),
        table(vec![
            ("Board Size", vec!["9x9", "13x13", "19x19"]),
            ("Clock", vec!["Blitz", "Rapid", "None"]),
            ("Handicap", vec!["0", "1", "2", "3", "4", "5", "6", "7", "8", "9"]),
        ])
    );
}

#[test]
fn one_player_options() {
    assert_eq!(
        texts(&go_game::one_player_controller::options()),
        table(vec![
            ("Board Size", vec!["9x9", "13x13", "19x19"]),
            ("Difficulty", vec!["Easy", "Medium", "Hard"]),
        ])
    );
}

#[test]
fn ogs_options() {
    assert_eq!(
        texts(&go_game::ogs_controller::options()),
        table(vec![
            ("Board Size", vec!["9x9", "13x13", "19x19"]),
            ("Clock", vec!["Blitz", "Rapid", "None"]),
        ])
    );
}

#[test]
fn modes_by_name() {
    assert_eq!(mode_from_name("1-Player"), Some(GameMode::OnePlayer));
    assert_eq!(mode_from_name("2-Player"), Some(GameMode::TwoPlayer));
    assert_eq!(mode_from_name("OGS"), Some(GameMode::Ogs));
    assert_eq!(mode_from_name("ogs"), None);
    assert_eq!(mode_from_name("2-Player "), None);
    assert_eq!(mode_from_name(""), None);
}

#[test]
fn options_by_mode_name() {
    assert_eq!(
        texts(&controller_options_from_name("1-Player")),
        texts(&go_game::one_player_controller::options())
    );
    assert_eq!(
        texts(&controller_options_from_name("2-Player")),
        texts(&go_game::two_player_controller::options())
    );
    assert_eq!(
        texts(&controller_options_from_name("OGS")),
        texts(&go_game::ogs_controller::options())
    );
    assert_eq!(texts(&mode_options(GameMode::Ogs)), texts(&go_game::ogs_controller::options()));
}

#[test]
fn same_text_compares_characters() {
    assert!(same_text("", ""));
    assert!(same_text("OGS", "OGS"));
    assert!(!same_text("OGS", "OGs"));
    assert!(!same_text("OGS", "OG"));
    assert!(!same_text("OG", "OGS"));
    assert!(same_text("碁盤", "碁盤"));
    assert!(!same_text("碁盤", "碁石"));
}

#[test]
fn board_sizes_of_the_options() {
    assert_eq!(parse_board_size("9x9"), Some(9));
    assert_eq!(parse_board_size("13x13"), Some(13));
    assert_eq!(parse_board_size("19x19"), Some(19));
}

#[test]
fn board_size_is_the_number_before_the_first_x() {
    assert_eq!(parse_board_size("19"), Some(19));
    assert_eq!(parse_board_size("7x"), Some(7));
    assert_eq!(parse_board_size("5x6x7"), Some(5));
    assert_eq!(parse_board_size("007x7"), Some(7));
    assert_eq!(parse_board_size("+7x7"), Some(7));
    assert_eq!(parse_board_size("0x0"), Some(0));
    assert_eq!(parse_board_size(""), None);
    assert_eq!(parse_board_size("x9"), None);
    assert_eq!(parse_board_size("+x9"), None);
    assert_eq!(parse_board_size("+"), None);
    assert_eq!(parse_board_size("-9x9"), None);
    assert_eq!(parse_board_size("++9x9"), None);
    assert_eq!(parse_board_size("9+x9"), None);
    assert_eq!(parse_board_size(" 9x9"), None);
    assert_eq!(parse_board_size("9 x9"), None);
    assert_eq!(parse_board_size("nine"), None);
    assert_eq!(parse_board_size("1９x19"), None);
}

#[test]
fn board_size_agrees_with_the_standard_parser() {
    let max = usize::MAX.to_string();
    assert_eq!(parse_board_size(&max), Some(usize::MAX));
    assert_eq!(parse_board_size(&format!("{}x1", max)), Some(usize::MAX));
    assert_eq!(parse_board_size(&format!("{}0", max)), None);
    assert_eq!(parse_board_size("18446744073709551616"), "18446744073709551616".parse().ok());
    assert_eq!(parse_board_size("99999999999999999999999999"), None);
    for text in ["0", "+0", "12", "+12", "0012", "1a", "a1", "", "+", "-", "-1", "1_000", "４"] {
        assert_eq!(parse_board_size(text), text.parse::<usize>().ok());
    }
}

#[test]
fn controllers_start_on_an_empty_board() {
    let one = OnePlayerController::new(9);
    assert_eq!(one.current_game_state().size, 9);
    let two = TwoPlayerController::new(13);
    assert_eq!(two.current_game_state().size, 13);
    let ogs = OgsController::new(19);
    assert_eq!(ogs.current_game_state().size, 19);
    assert_eq!(ogs.current_game_state().current_player, Player::Black);
    assert!(ogs.current_game_state().board.iter().all(|column| column.iter().all(|c| c.is_none())));
}

#[test]
fn controller_plays_on_its_board() {
    let mut controller = TwoPlayerController::new(9);
    assert_eq!(controller.try_play(point2(4, 4)), Ok(()));
    assert_eq!(controller.current_game_state().board[4][4], Some(Player::Black));
    assert_eq!(controller.current_game_state().current_player, Player::White);
    assert_eq!(controller.try_play(point2(4, 4)), Err(MoveRejection::CellOccupied));
    assert_eq!(controller.try_play(point2(9, 4)), Err(MoveRejection::OutOfBounds));
    assert_eq!(controller.current_game_state().current_player, Player::White);
}

#[test]
fn controller_by_mode_name() {
    for (name, mode) in
        [("1-Player", GameMode::OnePlayer), ("2-Player", GameMode::TwoPlayer), ("OGS", GameMode::Ogs)]
    {
        let mut controller = controller_from_name(name, 13);
        let found = match &controller {
            Controller::OnePlayer(_) => GameMode::OnePlayer,
            Controller::TwoPlayer(_) => GameMode::TwoPlayer,
            Controller::Ogs(_) => GameMode::Ogs,
        };
        assert_eq!(found, mode);
        assert_eq!(controller.current_game_state().size, 13);
        assert_eq!(controller.try_play(point2(12, 12)), Ok(()));
        assert_eq!(controller.current_game_state().last_move, Some(point2(12, 12)));
        assert_eq!(controller.try_play(point2(12, 12)), Err(MoveRejection::CellOccupied));
    }
    let other = Controller::new(GameMode::Ogs, 9);
    assert_eq!(other.current_game_state().size, 9);
}

#[test]
fn redraw_is_pending_from_post_to_reset() {
    let mut flag = RedrawFlag::new();
    assert!(!needs_redraw(&flag));
    post_redraw(&mut flag);
    assert!(needs_redraw(&flag));
    post_redraw(&mut flag);
    assert!(needs_redraw(&flag));
    reset_redraw(&mut flag);
    assert!(!needs_redraw(&flag));
    reset_redraw(&mut flag);
    assert!(!needs_redraw(&flag));
}
