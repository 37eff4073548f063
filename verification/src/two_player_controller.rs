//! Two players at one board.

use crate::game_controller::{option_texts, ControllerOption, GameController, OptionText};
use crate::go::{BoardState, MoveRejection};
use crate::rules::initial_position;
use cgmath::Point2;
use vstd::prelude::*;

verus! {

/// A game of two players at one board.
pub struct TwoPlayerController {
    state: BoardState,
}

impl TwoPlayerController {
    /// A new game on an empty board of side `board_size`.
    pub fn new(board_size: usize) -> (controller: TwoPlayerController)
        ensures
            controller.game().wf(),
            controller.game().size == board_size,
            controller.game()@ == initial_position(board_size as nat),
    {
        TwoPlayerController { state: BoardState::new(board_size) }
    }
}

/// The options of the mode, as text.
pub open spec fn option_table() -> Seq<OptionText> {
    seq![
        OptionText { name: "Board Size"@, values: seq!["9x9"@, "13x13"@, "19x19"@] },
        OptionText { name: "Clock"@, values: seq!["Blitz"@, "Rapid"@, "None"@] },
        OptionText {
            name: "Handicap"@,
            values: seq!["0"@, "1"@, "2"@, "3"@, "4"@, "5"@, "6"@, "7"@, "8"@, "9"@],
        },
    ]
}

/// The options that the mode offers before a game.
pub fn options() -> (options: Vec<ControllerOption>)
    ensures
        option_texts(options@) == option_table(),
{
    let board_size = ControllerOption::new("Board Size", vec!["9x9", "13x13", "19x19"]);
    let clock = ControllerOption::new("Clock", vec!["Blitz", "Rapid", "None"]);
    let handicap = ControllerOption::new(
        "Handicap",
        vec!["0", "1", "2", "3", "4", "5", "6", "7", "8", "9"],
    );
    proof {
        assert(board_size@.values =~= option_table()[0].values);
        assert(clock@.values =~= option_table()[1].values);
        assert(handicap@.values =~= option_table()[2].values);
    }
    let options = vec![board_size, clock, handicap];
    assert(option_texts(options@) =~= option_table());
    options
}

impl GameController for TwoPlayerController {
    closed spec fn game(&self) -> BoardState {
        self.state
    }

    fn current_game_state(&self) -> (state: &BoardState) {
        &self.state
    }

    fn try_play(&mut self, point: Point2<usize>) -> (result: Result<(), MoveRejection>) {
        self.state.try_play(point)
    }
}

} // verus!
