//! One player against the machine.

use crate::game_controller::{option_texts, ControllerOption, GameController, OptionText};
use crate::go::{BoardState, MoveRejection};
use crate::rules::initial_position;
use cgmath::Point2;
use vstd::prelude::*;

verus! {

/// A game of one player against the machine.
pub struct OnePlayerController {
    state: BoardState,
}

impl OnePlayerController {
    /// A new game on an empty board of side `board_size`.
    pub fn new(board_size: usize) -> (controller: OnePlayerController)
        ensures
            controller.game().wf(),
            controller.game().size == board_size,
            controller.game()@ == initial_position(board_size as nat),
    {
        OnePlayerController { state: BoardState::new(board_size) }
    }
}

/// The options of the mode, as text.
pub open spec fn option_table() -> Seq<OptionText> {
    seq![
        OptionText { name: "Board Size"@, values: seq!["9x9"@, "13x13"@, "19x19"@] },
        OptionText { name: "Difficulty"@, values: seq!["Easy"@, "Medium"@, "Hard"@] },
    ]
}

/// The options that the mode offers before a game.
pub fn options() -> (options: Vec<ControllerOption>)
    ensures
        option_texts(options@) == option_table(),
{
    let board_size = ControllerOption::new("Board Size", vec!["9x9", "13x13", "19x19"]);
    let difficulty = ControllerOption::new("Difficulty", vec!["Easy", "Medium", "Hard"]);
    proof {
        assert(board_size@.values =~= option_table()[0].values);
        assert(difficulty@.values =~= option_table()[1].values);
    }
    let options = vec![board_size, difficulty];
    assert(option_texts(options@) =~= option_table());
    options
}

impl GameController for OnePlayerController {
    closed spec fn game(&self) -> BoardState {
        self.state
    }

    fn current_game_state(&self) -> (state: &BoardState) {
        &self.state
    }

    fn try_play(&mut self, point: Point2<usize>) -> (result: Result<(), MoveRejection>) {
        self.state.try_play(point)
    }
}

} // verus!
