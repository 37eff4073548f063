//! What every game mode offers: its options, the state of its game, and moves.

use crate::go::{BoardState, MoveRejection};
use crate::point::coord;
use crate::rules::play;
use cgmath::Point2;
use vstd::prelude::*;

verus! {

/// A setting of a game mode, with the values it can take.
pub struct ControllerOption {
    pub name: String,
    pub values: Vec<String>,
}

/// The text of an option: its name and its values, as characters.
pub struct OptionText {
    pub name: Seq<char>,
    pub values: Seq<Seq<char>>,
}

impl View for ControllerOption {
    type V = OptionText;

    open spec fn view(&self) -> OptionText {
        OptionText { name: self.name@, values: self.values@.map_values(|value: String| value@) }
    }
}

/// The texts of a list of options, in order.
pub open spec fn option_texts(options: Seq<ControllerOption>) -> Seq<OptionText> {
    options.map_values(|option: ControllerOption| option@)
}

/// The characters of each of `texts`, in order.
pub open spec fn texts_of(texts: Seq<&str>) -> Seq<Seq<char>> {
    texts.map_values(|text: &str| text@)
}

impl ControllerOption {
    /// The option called `name` with the given values, in their order.
    pub fn new(name: &str, values: Vec<&str>) -> (option: ControllerOption)
        ensures
            option@ == (OptionText { name: name@, values: texts_of(values@) }),
    {
        let mut owned: Vec<String> = Vec::new();
        let mut i: usize = 0;
        while i < values.len()
            invariant
                0 <= i <= values@.len(),
                owned@.len() == i,
                forall|j: int| 0 <= j < i ==> (#[trigger] owned@[j])@ == values@[j]@,
            decreases values@.len() - i,
        {
            owned.push(values[i].to_owned());
            i += 1;
        }
        let option = ControllerOption { name: name.to_owned(), values: owned };
        assert(option@.values =~= texts_of(values@));
        option
    }
}

/// A game mode in play: it holds the state of one game and takes the moves.
pub trait GameController {
    /// The game that the controller runs.
    spec fn game(&self) -> BoardState;

    /// The state of the game.
    fn current_game_state(&self) -> (state: &BoardState)
        ensures
            *state == self.game(),
    ;

    /// Plays the side to move on `point`, as the rules of the board have it.
    fn try_play(&mut self, point: Point2<usize>) -> (result: Result<(), MoveRejection>)
        requires
            old(self).game().wf(),
            old(self).game()@.captures_by(old(self).game().current_player) + old(self).game().size
                * old(self).game().size <= u32::MAX,
        ensures
            final(self).game().wf(),
            final(self).game().size == old(self).game().size,
            result == play(old(self).game()@, coord(point)).0,
            final(self).game()@ == play(old(self).game()@, coord(point)).1,
    ;
}

} // verus!
