//! The game modes by name: one player, two players, or a game on the server.

use crate::game_controller::{option_texts, ControllerOption, GameController, OptionText};
use crate::go::{BoardState, MoveRejection};
use crate::ogs_controller::OgsController;
use crate::one_player_controller::OnePlayerController;
use crate::rules::initial_position;
use crate::two_player_controller::TwoPlayerController;
use cgmath::Point2;
use vstd::pervasive::unreached;
use vstd::prelude::*;
use vstd::string::StrSliceExecFns;

verus! {

/// The kinds of game that can be played.
#[derive(Debug, Clone, Copy, PartialEq, Eq, Structural)]
pub enum GameMode {
    OnePlayer,
    TwoPlayer,
    Ogs,
}

/// The mode that the menu calls `name`, if there is one.
pub open spec fn mode_named(name: Seq<char>) -> Option<GameMode> {
    if name == "1-Player"@ {
        Some(GameMode::OnePlayer)
    } else if name == "2-Player"@ {
        Some(GameMode::TwoPlayer)
    } else if name == "OGS"@ {
        Some(GameMode::Ogs)
    } else {
        None
    }
}

/// The options of a mode, as text.
pub open spec fn mode_option_table(mode: GameMode) -> Seq<OptionText> {
    match mode {
        GameMode::OnePlayer => crate::one_player_controller::option_table(),
        GameMode::TwoPlayer => crate::two_player_controller::option_table(),
        GameMode::Ogs => crate::ogs_controller::option_table(),
    }
}

/// Whether two texts are the same, character by character.
pub fn same_text(a: &str, b: &str) -> (same: bool)
    ensures
        same == (a@ == b@),
{
    let len = a.unicode_len();
    if len != b.unicode_len() {
        return false;
    }
    let mut i: usize = 0;
    while i < len
        invariant
            len == a@.len(),
            len == b@.len(),
            0 <= i <= len,
            forall|j: int| 0 <= j < i ==> a@[j] == b@[j],
        decreases len - i,
    {
        if a.get_char(i) != b.get_char(i) {
            return false;
        }
        i += 1;
    }
    assert(a@ =~= b@);
    true
}

/// The mode that the menu calls `name`; none for any other text.
pub fn mode_from_name(name: &str) -> (mode: Option<GameMode>)
    ensures
        mode == mode_named(name@),
{
    if same_text(name, "1-Player") {
        Some(GameMode::OnePlayer)
    } else if same_text(name, "2-Player") {
        Some(GameMode::TwoPlayer)
    } else if same_text(name, "OGS") {
        Some(GameMode::Ogs)
    } else {
        None
    }
}

/// The options that a mode offers before a game.
pub fn mode_options(mode: GameMode) -> (options: Vec<ControllerOption>)
    ensures
        option_texts(options@) == mode_option_table(mode),
{
    match mode {
        GameMode::OnePlayer => crate::one_player_controller::options(),
        GameMode::TwoPlayer => crate::two_player_controller::options(),
        GameMode::Ogs => crate::ogs_controller::options(),
    }
}

/// The options of the mode called `name`, which is one of the three modes.
pub fn controller_options_from_name(name: &str) -> (options: Vec<ControllerOption>)
    requires
        mode_named(name@) is Some,
    ensures
        option_texts(options@) == mode_option_table(mode_named(name@)->0),
{
    match mode_from_name(name) {
        Some(mode) => mode_options(mode),
        None => unreached(),
    }
}

/// A game in one of the modes.
pub enum Controller {
    OnePlayer(OnePlayerController),
    TwoPlayer(TwoPlayerController),
    Ogs(OgsController),
}

impl Controller {
    /// The mode of the game.
    pub open spec fn mode(&self) -> GameMode {
        match self {
            Controller::OnePlayer(_) => GameMode::OnePlayer,
            Controller::TwoPlayer(_) => GameMode::TwoPlayer,
            Controller::Ogs(_) => GameMode::Ogs,
        }
    }

    /// A new game in `mode` on an empty board of side `board_size`.
    pub fn new(mode: GameMode, board_size: usize) -> (controller: Controller)
        ensures
            controller.mode() == mode,
            controller.game().wf(),
            controller.game().size == board_size,
            controller.game()@ == initial_position(board_size as nat),
    {
        match mode {
            GameMode::OnePlayer => Controller::OnePlayer(OnePlayerController::new(board_size)),
            GameMode::TwoPlayer => Controller::TwoPlayer(TwoPlayerController::new(board_size)),
            GameMode::Ogs => Controller::Ogs(OgsController::new(board_size)),
        }
    }
}

impl GameController for Controller {
    open spec fn game(&self) -> BoardState {
        match self {
            Controller::OnePlayer(controller) => controller.game(),
            Controller::TwoPlayer(controller) => controller.game(),
            Controller::Ogs(controller) => controller.game(),
        }
    }

    fn current_game_state(&self) -> (state: &BoardState) {
        match self {
            Controller::OnePlayer(controller) => controller.current_game_state(),
            Controller::TwoPlayer(controller) => controller.current_game_state(),
            Controller::Ogs(controller) => controller.current_game_state(),
        }
    }

    fn try_play(&mut self, point: Point2<usize>) -> (result: Result<(), MoveRejection>) {
        match self {
            Controller::OnePlayer(controller) => controller.try_play(point),
            Controller::TwoPlayer(controller) => controller.try_play(point),
            Controller::Ogs(controller) => controller.try_play(point),
        }
    }
}

/// A new game in the mode called `name`, which is one of the three modes, on
/// an empty board of side `board_size`.
pub fn controller_from_name(name: &str, board_size: usize) -> (controller: Controller)
    requires
        mode_named(name@) is Some,
    ensures
        controller.mode() == mode_named(name@)->0,
        controller.game().wf(),
        controller.game().size == board_size,
        controller.game()@ == initial_position(board_size as nat),
{
    match mode_from_name(name) {
        Some(mode) => Controller::new(mode, board_size),
        None => unreached(),
    }
}

} // verus!
