//! What holds of every move and of every game, proved from the rules.

use crate::chain::{
    adjacent, chain, cleared, free_next_to, has_liberty, joins, lemma_chain_colour,
    lemma_chain_refl, lemma_chain_step, lemma_chain_sym, lemma_chain_trans, lemma_cleared,
    lemma_clearing_keeps_liberty, lemma_liberty_elim, lemma_liberty_intro, lemma_liberty_shared,
    lemma_path_frame, lemma_with_cell, liberties, on_board, same_chain, settled, square, stone,
    with_cell, Cell, Grid,
};
use crate::go::{opponent, MoveRejection, Player};
use crate::rules::{
    captured, dead_neighbour, initial_position, lemma_capture_frees, lemma_captured_whole,
    lemma_single_member, play, Position,
};
use vstd::prelude::*;

verus! {

/// A move that is rejected, for whatever reason, leaves the position as it was.
pub proof fn law_rejection_changes_nothing(pos: Position, p: Cell)
    requires
        play(pos, p).0 is Err,
    ensures
        play(pos, p).1 == pos,
{
}

/// A move on a cell that holds a stone is rejected as such, and nothing
/// changes: not the board, the side to move, the captures, the last move or
/// the ko point.
pub proof fn law_occupied_cell_rejected(pos: Position, p: Cell)
    requires
        stone(pos.grid, p) is Some,
    ensures
        play(pos, p) == (Err::<(), MoveRejection>(MoveRejection::CellOccupied), pos),
{
}

/// A move that is played hands the turn to the other side, records the move,
/// and counts what it took for the side that played, and for that side only.
pub proof fn law_played_move(pos: Position, p: Cell)
    requires
        play(pos, p).0 is Ok,
    ensures
        play(pos, p).1.to_move == opponent(pos.to_move),
        play(pos, p).1.last_move == Some(p),
        play(pos, p).1.captures_by(pos.to_move) >= pos.captures_by(pos.to_move),
        play(pos, p).1.captures_by(opponent(pos.to_move)) == pos.captures_by(
            opponent(pos.to_move),
        ),
        play(pos, p).1.komi_minus_half == pos.komi_minus_half,
        stone(play(pos, p).1.grid, p) == Some(pos.to_move),
{
    let mover = pos.to_move;
    let placed = with_cell(pos.grid, p, Some(mover));
    let taken = captured(placed, p, mover);
    lemma_with_cell(pos.grid, p, Some(mover));
    lemma_cleared(placed, taken);
    if taken.contains(p) {
        let nb = choose|nb: Cell|
            dead_neighbour(placed, p, mover, nb) && same_chain(placed, nb, p);
        lemma_chain_colour(placed, nb, p);
    }
}

/// A move on an empty cell of the board, not the ko point, that has an empty
/// cell next to it is played.
pub proof fn law_move_with_room_is_played(pos: Position, p: Cell, free: Cell)
    requires
        square(pos.grid),
        on_board(pos.grid, p),
        stone(pos.grid, p) is None,
        pos.ko != Some(p),
        free_next_to(pos.grid, p, free),
    ensures
        play(pos, p).0 is Ok,
{
    let mover = pos.to_move;
    let placed = with_cell(pos.grid, p, Some(mover));
    let taken = captured(placed, p, mover);
    let after = cleared(placed, taken);
    lemma_with_cell(pos.grid, p, Some(mover));
    lemma_cleared(placed, taken);
    lemma_captured_whole(placed, p, mover);
    lemma_chain_refl(after, p);
    lemma_liberty_intro(after, p, p, free);
}

/// The position after the first `k` of `moves`, each played from the position
/// that the one before it left.
pub open spec fn position_after(start: Position, moves: Seq<Cell>, k: nat) -> Position
    decreases k,
{
    if k == 0 {
        start
    } else {
        play(position_after(start, moves, (k - 1) as nat), moves[k - 1]).1
    }
}

/// Each of `moves`, played in turn from `start`, is accepted.
pub open spec fn all_played(start: Position, moves: Seq<Cell>) -> bool {
    forall|k: nat|
        k < moves.len() ==> (#[trigger] play(position_after(start, moves, k), moves[k as int])).0 is Ok
}

/// In a game that Black starts, Black is to move after an even number of
/// played moves and White after an odd number.
pub proof fn law_turns_alternate(start: Position, moves: Seq<Cell>, k: nat)
    requires
        start.to_move == Player::Black,
        all_played(start, moves),
        k <= moves.len(),
    ensures
        position_after(start, moves, k).to_move == (if k % 2 == 0 {
            Player::Black
        } else {
            Player::White
        }),
    decreases k,
{
    if k > 0 {
        let j = (k - 1) as nat;
        law_turns_alternate(start, moves, j);
        assert(play(position_after(start, moves, j), moves[j as int]).0 is Ok);
        law_played_move(position_after(start, moves, j), moves[j as int]);
    }
}

/// A chain in the grid is a chain still once a stone is placed on an empty cell.
pub proof fn lemma_placing_keeps_chain(g: Grid, p: Cell, v: Player, a: Cell, b: Cell)
    requires
        on_board(g, p),
        stone(g, p) is None,
        same_chain(g, a, b),
    ensures
        same_chain(with_cell(g, p, Some(v)), a, b),
{
    let h = with_cell(g, p, Some(v));
    let path = choose|path: Seq<Cell>| joins(g, path, a, b);
    lemma_with_cell(g, p, Some(v));
    assert forall|i: int| 0 <= i < path.len() implies stone(h, #[trigger] path[i]) == stone(
        g,
        path[i],
    ) by {
        assert(stone(g, path[i]) == stone(g, path[0]));
    }
    lemma_path_frame(g, h, path);
    assert(joins(h, path, a, b));
}

/// A chain of the side that moved is a chain still after the move.
proof fn lemma_own_chain_stays(g: Grid, p: Cell, mover: Player, a: Cell, b: Cell)
    requires
        square(g),
        on_board(g, p),
        stone(g, p) is None,
        stone(g, a) == Some(mover),
        same_chain(g, a, b),
    ensures
        same_chain(
            cleared(
                with_cell(g, p, Some(mover)),
                captured(with_cell(g, p, Some(mover)), p, mover),
            ),
            a,
            b,
        ),
{
    let placed = with_cell(g, p, Some(mover));
    let taken = captured(placed, p, mover);
    let after = cleared(placed, taken);
    let path = choose|path: Seq<Cell>| joins(g, path, a, b);
    lemma_with_cell(g, p, Some(mover));
    lemma_cleared(placed, taken);
    lemma_captured_whole(placed, p, mover);
    assert forall|i: int| 0 <= i < path.len() implies stone(after, #[trigger] path[i]) == stone(
        g,
        path[i],
    ) by {
        assert(stone(g, path[i]) == stone(g, path[0]));
    }
    lemma_path_frame(g, after, path);
    assert(joins(after, path, a, b));
}

/// A move that is played leaves its own stone in a chain with a liberty, and
/// takes the last liberty of no chain that it leaves on the board.
pub proof fn law_no_liberty_lost(pos: Position, p: Cell, c: Cell)
    requires
        square(pos.grid),
        play(pos, p).0 is Ok,
        stone(play(pos, p).1.grid, c) is Some,
    ensures
        has_liberty(play(pos, p).1.grid, p),
        c == p || has_liberty(pos.grid, c) ==> has_liberty(play(pos, p).1.grid, c),
{
    let g = pos.grid;
    let mover = pos.to_move;
    let other = opponent(mover);
    let placed = with_cell(g, p, Some(mover));
    let taken = captured(placed, p, mover);
    let after = cleared(placed, taken);
    lemma_with_cell(g, p, Some(mover));
    lemma_cleared(placed, taken);
    lemma_captured_whole(placed, p, mover);
    law_played_move(pos, p);
    if same_chain(after, p, c) {
        lemma_liberty_shared(after, p, c);
    } else if has_liberty(g, c) {
        lemma_chain_refl(after, p);
        let (s, l) = lemma_liberty_elim(g, c);
        lemma_chain_colour(g, c, s);
        if stone(after, c) == Some(mover) {
            lemma_own_chain_stays(g, p, mover, c, s);
            if l == p {
                lemma_chain_step(after, c, s, p);
                lemma_chain_sym(after, c, p);
            }
            lemma_liberty_intro(after, c, s, l);
        } else {
            lemma_placing_keeps_chain(g, p, mover, c, s);
            lemma_chain_sym(placed, c, s);
            if l == p {
                if !has_liberty(placed, s) {
                    assert(adjacent(p, s));
                    assert(stone(placed, s) == Some(other));
                    assert(dead_neighbour(placed, p, mover, s));
                    assert(taken.contains(c));
                }
                lemma_liberty_shared(placed, s, c);
            } else {
                lemma_liberty_intro(placed, c, s, l);
            }
            lemma_clearing_keeps_liberty(placed, taken, other, c);
        }
    }
}

/// After a move that is played no chain on the board is without a liberty,
/// if none was before it.
pub proof fn law_no_chain_without_liberty(pos: Position, p: Cell)
    requires
        square(pos.grid),
        settled(pos.grid),
        play(pos, p).0 is Ok,
    ensures
        settled(play(pos, p).1.grid),
{
    let after = play(pos, p).1.grid;
    lemma_with_cell(pos.grid, p, Some(pos.to_move));
    lemma_cleared(
        with_cell(pos.grid, p, Some(pos.to_move)),
        captured(with_cell(pos.grid, p, Some(pos.to_move)), p, pos.to_move),
    );
    assert forall|c: Cell| stone(after, c) is Some implies #[trigger] has_liberty(after, c) by {
        law_no_liberty_lost(pos, p, c);
        if c != p {
            assert(stone(pos.grid, c) is Some);
        }
    }
}

/// The empty board has no chain without a liberty.
pub proof fn law_empty_board_settled(n: nat)
    ensures
        settled(initial_position(n).grid),
        square(initial_position(n).grid),
{
}

/// The board stays a square of the same side, whatever is played.
pub proof fn law_board_stays_square(pos: Position, p: Cell)
    requires
        square(pos.grid),
    ensures
        square(play(pos, p).1.grid),
        play(pos, p).1.grid.len() == pos.grid.len(),
{
    let placed = with_cell(pos.grid, p, Some(pos.to_move));
    if on_board(pos.grid, p) {
        lemma_with_cell(pos.grid, p, Some(pos.to_move));
    }
    lemma_cleared(placed, captured(placed, p, pos.to_move));
}

/// In a game played from the empty board no move, played or rejected, ever
/// leaves a chain without a liberty.
pub proof fn law_game_stays_settled(n: nat, moves: Seq<Cell>, k: nat)
    requires
        k <= moves.len(),
    ensures
        square(position_after(initial_position(n), moves, k).grid),
        settled(position_after(initial_position(n), moves, k).grid),
    decreases k,
{
    if k == 0 {
        law_empty_board_settled(n);
    } else {
        let j = (k - 1) as nat;
        law_game_stays_settled(n, moves, j);
        let before = position_after(initial_position(n), moves, j);
        law_board_stays_square(before, moves[j as int]);
        if play(before, moves[j as int]).0 is Ok {
            law_no_chain_without_liberty(before, moves[j as int]);
        }
    }
}

/// A chain of the side that did not move is the same chain once the stone is placed.
pub proof fn lemma_placing_keeps_other_chain(g: Grid, p: Cell, mover: Player, a: Cell, b: Cell)
    requires
        on_board(g, p),
        stone(g, p) is None,
        stone(g, a) == Some(opponent(mover)),
    ensures
        same_chain(with_cell(g, p, Some(mover)), a, b) == same_chain(g, a, b),
{
    let placed = with_cell(g, p, Some(mover));
    lemma_with_cell(g, p, Some(mover));
    if same_chain(g, a, b) {
        lemma_placing_keeps_chain(g, p, mover, a, b);
    }
    if same_chain(placed, a, b) {
        let path = choose|path: Seq<Cell>| joins(placed, path, a, b);
        assert forall|i: int| 0 <= i < path.len() implies stone(g, #[trigger] path[i]) == stone(
            placed,
            path[i],
        ) by {
            assert(stone(placed, path[i]) == stone(placed, path[0]));
        }
        lemma_path_frame(placed, g, path);
        assert(joins(g, path, a, b));
    }
}

/// Where a move that is played takes the last liberty of a chain of the other
/// side, every stone of that chain leaves the board. The side that moved is
/// credited with exactly the stones that left the board, which are those of
/// the chains so taken: the stones of this chain alone where no other was
/// taken with it.
pub proof fn law_capture(pos: Position, p: Cell, q: Cell)
    requires
        square(pos.grid),
        play(pos, p).0 is Ok,
        stone(pos.grid, q) == Some(opponent(pos.to_move)),
        has_liberty(pos.grid, q),
        !has_liberty(with_cell(pos.grid, p, Some(pos.to_move)), q),
    ensures
        chain(with_cell(pos.grid, p, Some(pos.to_move)), q) == chain(pos.grid, q),
        forall|r: Cell| #[trigger] same_chain(pos.grid, q, r) ==> stone(play(pos, p).1.grid, r) is None,
        chain(pos.grid, q).subset_of(
            captured(with_cell(pos.grid, p, Some(pos.to_move)), p, pos.to_move),
        ),
        forall|r: Cell|
            captured(with_cell(pos.grid, p, Some(pos.to_move)), p, pos.to_move).contains(r) <==> (
            stone(pos.grid, r) is Some && #[trigger] stone(play(pos, p).1.grid, r) is None),
        play(pos, p).1.captures_by(pos.to_move) == pos.captures_by(pos.to_move) + captured(
            with_cell(pos.grid, p, Some(pos.to_move)),
            p,
            pos.to_move,
        ).len(),
        captured(with_cell(pos.grid, p, Some(pos.to_move)), p, pos.to_move) == chain(pos.grid, q)
            ==> play(pos, p).1.captures_by(pos.to_move) == pos.captures_by(pos.to_move) + chain(
            pos.grid,
            q,
        ).len(),
{
    let g = pos.grid;
    let mover = pos.to_move;
    let other = opponent(mover);
    let placed = with_cell(g, p, Some(mover));
    let taken = captured(placed, p, mover);
    let after = cleared(placed, taken);
    lemma_with_cell(g, p, Some(mover));
    lemma_cleared(placed, taken);
    lemma_captured_whole(placed, p, mover);
    assert(play(pos, p).1.grid == after);
    assert(chain(placed, q) =~= chain(g, q)) by {
        assert forall|r: Cell| same_chain(placed, q, r) == same_chain(g, q, r) by {
            lemma_placing_keeps_other_chain(g, p, mover, q, r);
        }
    }
    let (s, l) = lemma_liberty_elim(g, q);
    lemma_chain_colour(g, q, s);
    lemma_placing_keeps_chain(g, p, mover, q, s);
    if l != p {
        lemma_liberty_intro(placed, q, s, l);
    }
    assert(adjacent(p, s));
    assert(stone(placed, s) == Some(other));
    if has_liberty(placed, s) {
        lemma_chain_sym(placed, q, s);
        lemma_liberty_shared(placed, s, q);
    }
    assert(dead_neighbour(placed, p, mover, s));
    assert forall|r: Cell| #[trigger] same_chain(g, q, r) implies taken.contains(r) by {
        lemma_placing_keeps_chain(g, p, mover, q, r);
        lemma_chain_sym(placed, q, s);
        lemma_chain_trans(placed, s, q, r);
    }
    assert forall|r: Cell| taken.contains(r) <==> (stone(g, r) is Some && #[trigger] stone(
        after,
        r,
    ) is None) by {
        if stone(g, r) is Some && stone(after, r) is None {
            assert(stone(placed, r) is Some);
        }
    }
}

/// A move that would leave its own stone in a chain without a liberty, and
/// takes nothing, is rejected as self-capture, and nothing changes. (The ko
/// point is left out: a move there is rejected as a ko violation before.)
pub proof fn law_suicide_rejected(pos: Position, p: Cell)
    requires
        on_board(pos.grid, p),
        stone(pos.grid, p) is None,
        pos.ko != Some(p),
        captured(with_cell(pos.grid, p, Some(pos.to_move)), p, pos.to_move) == Set::<Cell>::empty(),
        !has_liberty(with_cell(pos.grid, p, Some(pos.to_move)), p),
    ensures
        play(pos, p) == (Err::<(), MoveRejection>(MoveRejection::SelfCapture), pos),
{
    let placed = with_cell(pos.grid, p, Some(pos.to_move));
    assert(cleared(placed, Set::<Cell>::empty()) =~~= placed);
}

/// A move that is rejected as self-capture would have taken nothing.
pub proof fn law_self_capture_takes_nothing(pos: Position, p: Cell)
    requires
        square(pos.grid),
        play(pos, p).0 == Err::<(), MoveRejection>(MoveRejection::SelfCapture),
    ensures
        captured(with_cell(pos.grid, p, Some(pos.to_move)), p, pos.to_move) == Set::<Cell>::empty(),
{
    let placed = with_cell(pos.grid, p, Some(pos.to_move));
    let taken = captured(placed, p, pos.to_move);
    lemma_with_cell(pos.grid, p, Some(pos.to_move));
    assert forall|q: Cell| !taken.contains(q) by {
        if taken.contains(q) {
            lemma_capture_frees(placed, p, pos.to_move, q);
        }
    }
    assert(taken =~= Set::<Cell>::empty());
}

/// The ko point that a played move leaves, if any, is an empty cell of the
/// board from which the move has just taken a stone.
pub proof fn law_ko_point_just_taken(pos: Position, p: Cell, k: Cell)
    requires
        square(pos.grid),
        play(pos, p).0 is Ok,
        play(pos, p).1.ko == Some(k),
    ensures
        on_board(pos.grid, k),
        stone(pos.grid, k) == Some(opponent(pos.to_move)),
        stone(play(pos, p).1.grid, k) is None,
        captured(with_cell(pos.grid, p, Some(pos.to_move)), p, pos.to_move) == set![k],
{
    let mover = pos.to_move;
    let placed = with_cell(pos.grid, p, Some(mover));
    let taken = captured(placed, p, mover);
    lemma_with_cell(pos.grid, p, Some(mover));
    lemma_cleared(placed, taken);
    lemma_captured_whole(placed, p, mover);
    assert(taken.contains(k)) by {
        if taken =~= Set::<Cell>::empty() {
        }
    }
    assert(taken =~= set![k]) by {
        assert forall|c: Cell| taken.contains(c) implies c == k by {
            lemma_single_member(taken, c, k);
        }
    }
}

/// Ko: where a played move takes exactly one stone and leaves its own stone
/// alone with exactly one liberty, the cell of the stone taken is the ko point,
/// and the other side, whose turn it is, is rejected there with a ko violation.
pub proof fn law_ko_forbids_recapture(pos: Position, p: Cell, k: Cell)
    requires
        square(pos.grid),
        play(pos, p).0 is Ok,
        captured(with_cell(pos.grid, p, Some(pos.to_move)), p, pos.to_move) == set![k],
        chain(play(pos, p).1.grid, p) == set![p],
        liberties(play(pos, p).1.grid, set![p]).len() == 1,
    ensures
        play(pos, p).1.ko == Some(k),
        play(pos, p).1.to_move == opponent(pos.to_move),
        play(play(pos, p).1, k) == (
            Err::<(), MoveRejection>(MoveRejection::KoViolation),
            play(pos, p).1,
        ),
{
    let mover = pos.to_move;
    let placed = with_cell(pos.grid, p, Some(mover));
    let taken = captured(placed, p, mover);
    lemma_with_cell(pos.grid, p, Some(mover));
    lemma_cleared(placed, taken);
    lemma_captured_whole(placed, p, mover);
    assert(taken.len() == 1);
    assert(set![p].len() == 1);
    assert(taken.contains(taken.choose()));
    law_ko_point_just_taken(pos, p, taken.choose());
}

/// The ko point holds for one turn only: where it is an empty cell, as every
/// move leaves it, the next move that is played leaves another ko point or
/// none, so that the turn after it a move there is no ko violation.
pub proof fn law_ko_lasts_one_turn(pos: Position, p: Cell, k: Cell)
    requires
        square(pos.grid),
        pos.ko == Some(k),
        stone(pos.grid, k) is None,
        play(pos, p).0 is Ok,
    ensures
        play(pos, p).1.ko != Some(k),
        play(play(pos, p).1, k).0 != Err::<(), MoveRejection>(MoveRejection::KoViolation),
{
    if play(pos, p).1.ko == Some(k) {
        law_ko_point_just_taken(pos, p, k);
    }
}

} // verus!
