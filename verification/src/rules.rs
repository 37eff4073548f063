//! What a move does, stated over the mathematical model of the board.

use crate::chain::{
    adjacent, all_cells, chain, cleared, empty_grid, has_liberty, lemma_all_cells,
    lemma_chain_colour, lemma_chain_refl, lemma_chain_step, lemma_cleared, lemma_liberty_intro,
    lemma_neighbours, liberties, neighbours, on_board, same_chain, square, stone, whole_chains,
    with_cell, Cell, Grid,
};
use crate::go::{opponent, MoveRejection, Player};
use vstd::prelude::*;
use vstd::set_lib::{lemma_len_subset, lemma_set_subset_finite};

verus! {

/// The state of a game between two moves.
pub struct Position {
    /// The stones on the board.
    pub grid: Grid,
    /// The side that plays next.
    pub to_move: Player,
    /// The cell of the last stone played.
    pub last_move: Option<Cell>,
    /// The cell that the side to move may not play on this turn.
    pub ko: Option<Cell>,
    /// How many white stones Black has taken.
    pub captures_by_black: nat,
    /// How many black stones White has taken.
    pub captures_by_white: nat,
    /// White's compensation, less the half point.
    pub komi_minus_half: nat,
}

impl Position {
    /// How many stones `player` has taken.
    pub open spec fn captures_by(self, player: Player) -> nat {
        match player {
            Player::Black => self.captures_by_black,
            Player::White => self.captures_by_white,
        }
    }

    /// The position with `n` more stones taken by `player`.
    pub open spec fn with_captures(self, player: Player, n: nat) -> Position {
        match player {
            Player::Black => Position { captures_by_black: self.captures_by_black + n, ..self },
            Player::White => Position { captures_by_white: self.captures_by_white + n, ..self },
        }
    }
}

/// The position in which a game on a board of side `n` starts.
pub open spec fn initial_position(n: nat) -> Position {
    Position {
        grid: empty_grid(n),
        to_move: Player::Black,
        last_move: None,
        ko: None,
        captures_by_black: 0,
        captures_by_white: 0,
        komi_minus_half: 6,
    }
}

/// With `mover`'s stone placed on `p`, the cell `nb` next to it holds a stone
/// of the other side whose chain has no liberty left.
pub open spec fn dead_neighbour(placed: Grid, p: Cell, mover: Player, nb: Cell) -> bool {
    adjacent(p, nb) && stone(placed, nb) == Some(opponent(mover)) && !has_liberty(placed, nb)
}

/// The stones that `mover`'s stone on `p` takes: the chains of the other side
/// next to `p` that have no liberty once the stone is placed.
pub open spec fn captured(placed: Grid, p: Cell, mover: Player) -> Set<Cell> {
    Set::new(
        |q: Cell|
            exists|nb: Cell| dead_neighbour(placed, p, mover, nb) && same_chain(placed, nb, q),
    )
}

/// The ko point after a move to `p` that took `taken` and left the grid `after`:
/// the one stone taken, where the stone on `p` stands alone with one liberty.
pub open spec fn ko_after(after: Grid, p: Cell, taken: Set<Cell>) -> Option<Cell> {
    if taken.len() == 1 && chain(after, p).len() == 1 && liberties(after, chain(after, p)).len()
        == 1 {
        Some(taken.choose())
    } else {
        None
    }
}

/// The result of the side to move playing on `p`, and the position after it.
/// A rejected move leaves the position as it was.
pub open spec fn play(pos: Position, p: Cell) -> (Result<(), MoveRejection>, Position) {
    let mover = pos.to_move;
    let placed = with_cell(pos.grid, p, Some(mover));
    let taken = captured(placed, p, mover);
    let after = cleared(placed, taken);
    if !on_board(pos.grid, p) {
        (Err(MoveRejection::OutOfBounds), pos)
    } else if stone(pos.grid, p) is Some {
        (Err(MoveRejection::CellOccupied), pos)
    } else if pos.ko == Some(p) {
        (Err(MoveRejection::KoViolation), pos)
    } else if !has_liberty(after, p) {
        (Err(MoveRejection::SelfCapture), pos)
    } else {
        (
            Ok(()),
            Position {
                grid: after,
                to_move: opponent(mover),
                last_move: Some(p),
                ko: ko_after(after, p, taken),
                ..pos
            }.with_captures(mover, taken.len()),
        )
    }
}

/// A set of one element holds no two different ones.
pub proof fn lemma_single_member<A>(s: Set<A>, a: A, b: A)
    requires
        s.finite(),
        s.len() == 1,
        s.contains(a),
        s.contains(b),
    ensures
        a == b,
{
    if a != b {
        assert(s.remove(a).contains(b));
        assert(s.remove(a).len() == 0);
    }
}

/// The stones taken on account of the first `k` of the cells `around`.
pub open spec fn captured_among(
    placed: Grid,
    p: Cell,
    mover: Player,
    around: Seq<Cell>,
    k: int,
) -> Set<Cell> {
    Set::new(
        |q: Cell|
            exists|j: int|
                0 <= j < k && dead_neighbour(placed, p, mover, #[trigger] around[j]) && same_chain(
                    placed,
                    around[j],
                    q,
                ),
    )
}

/// The stones taken are whole chains of the other side, all on the board.
pub proof fn lemma_captured_among_whole(
    placed: Grid,
    p: Cell,
    mover: Player,
    around: Seq<Cell>,
    k: int,
)
    requires
        square(placed),
    ensures
        whole_chains(placed, captured_among(placed, p, mover, around, k), opponent(mover)),
        captured_among(placed, p, mover, around, k).subset_of(all_cells(placed.len() as int)),
        captured_among(placed, p, mover, around, k).finite(),
{
    let taken = captured_among(placed, p, mover, around, k);
    assert forall|c: Cell| taken.contains(c) implies stone(placed, c) == Some(opponent(mover))
        && all_cells(placed.len() as int).contains(c) by {
        let j = choose|j: int|
            0 <= j < k && dead_neighbour(placed, p, mover, #[trigger] around[j]) && same_chain(
                placed,
                around[j],
                c,
            );
        lemma_chain_colour(placed, around[j], c);
    }
    assert forall|c: Cell, d: Cell|
        taken.contains(c) && #[trigger] adjacent(c, d) && stone(placed, d) == Some(
            opponent(mover),
        ) implies taken.contains(d) by {
        let j = choose|j: int|
            0 <= j < k && dead_neighbour(placed, p, mover, #[trigger] around[j]) && same_chain(
                placed,
                around[j],
                c,
            );
        lemma_chain_step(placed, around[j], c, d);
    }
    lemma_all_cells(placed.len() as int);
    lemma_set_subset_finite(all_cells(placed.len() as int), taken);
}

/// Going round all the neighbours of `p` finds all that the move takes.
pub proof fn lemma_captured_among_all(placed: Grid, p: Cell, mover: Player)
    requires
        square(placed),
    ensures
        captured_among(
            placed,
            p,
            mover,
            neighbours(placed.len() as int, p),
            neighbours(placed.len() as int, p).len() as int,
        ) == captured(placed, p, mover),
{
    let around = neighbours(placed.len() as int, p);
    let among = captured_among(placed, p, mover, around, around.len() as int);
    lemma_neighbours(placed.len() as int, p);
    assert forall|q: Cell| captured(placed, p, mover).contains(q) implies among.contains(q) by {
        let nb = choose|nb: Cell|
            dead_neighbour(placed, p, mover, nb) && same_chain(placed, nb, q);
        assert(around.contains(nb));
        let j = choose|j: int| 0 <= j < around.len() && around[j] == nb;
        assert(dead_neighbour(placed, p, mover, around[j]));
    }
    assert(among =~= captured(placed, p, mover));
}

/// What a move takes is made of whole chains of the other side.
pub proof fn lemma_captured_whole(placed: Grid, p: Cell, mover: Player)
    requires
        square(placed),
    ensures
        whole_chains(placed, captured(placed, p, mover), opponent(mover)),
        captured(placed, p, mover).subset_of(all_cells(placed.len() as int)),
        captured(placed, p, mover).finite(),
        captured(placed, p, mover).len() <= placed.len() * placed.len(),
{
    let around = neighbours(placed.len() as int, p);
    lemma_captured_among_all(placed, p, mover);
    lemma_captured_among_whole(placed, p, mover, around, around.len() as int);
    lemma_all_cells(placed.len() as int);
    lemma_len_subset(captured(placed, p, mover), all_cells(placed.len() as int));
}

/// The next neighbour adds its chain to what is taken if that chain is dead,
/// and nothing otherwise.
pub proof fn lemma_captured_among_next(
    placed: Grid,
    p: Cell,
    mover: Player,
    around: Seq<Cell>,
    k: int,
)
    requires
        0 <= k < around.len(),
    ensures
        captured_among(placed, p, mover, around, k + 1) == (if dead_neighbour(
            placed,
            p,
            mover,
            around[k],
        ) {
            captured_among(placed, p, mover, around, k).union(chain(placed, around[k]))
        } else {
            captured_among(placed, p, mover, around, k)
        }),
{
    let before = captured_among(placed, p, mover, around, k);
    let next = captured_among(placed, p, mover, around, k + 1);
    let expected = if dead_neighbour(placed, p, mover, around[k]) {
        before.union(chain(placed, around[k]))
    } else {
        before
    };
    assert forall|q: Cell| next.contains(q) implies expected.contains(q) by {
        let j = choose|j: int|
            0 <= j < k + 1 && dead_neighbour(placed, p, mover, #[trigger] around[j]) && same_chain(
                placed,
                around[j],
                q,
            );
        if j < k {
            assert(before.contains(q));
        }
    }
    assert forall|q: Cell| expected.contains(q) implies next.contains(q) by {
        if before.contains(q) {
            let j = choose|j: int|
                0 <= j < k && dead_neighbour(placed, p, mover, #[trigger] around[j]) && same_chain(
                    placed,
                    around[j],
                    q,
                );
            assert(0 <= j < k + 1);
        } else {
            assert(dead_neighbour(placed, p, mover, around[k]) && same_chain(
                placed,
                around[k],
                q,
            ));
        }
    }
    assert(next =~= expected);
}

/// A move that takes a stone leaves its own stone a liberty.
pub proof fn lemma_capture_frees(placed: Grid, p: Cell, mover: Player, q: Cell)
    requires
        square(placed),
        stone(placed, p) == Some(mover),
        captured(placed, p, mover).contains(q),
    ensures
        has_liberty(cleared(placed, captured(placed, p, mover)), p),
{
    let taken = captured(placed, p, mover);
    let after = cleared(placed, taken);
    let nb = choose|nb: Cell| dead_neighbour(placed, p, mover, nb) && same_chain(placed, nb, q);
    lemma_chain_refl(placed, nb);
    assert(taken.contains(nb));
    lemma_captured_whole(placed, p, mover);
    lemma_cleared(placed, taken);
    lemma_chain_refl(after, p);
    lemma_liberty_intro(after, p, p, nb);
}

} // verus!
