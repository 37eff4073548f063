//! The board state and the move operation.

use crate::chain::{
    adjacent, all_cells, chain, cleared, empty_grid, free_next_to, has_liberty, lemma_all_cells,
    lemma_chain_colour, lemma_chain_refl, lemma_chain_step, lemma_chain_sym, lemma_cleared,
    lemma_clearing_adds_no_liberty, lemma_clearing_keeps_chain, lemma_clearing_keeps_liberty,
    lemma_closed_holds_chain, lemma_neighbours, lemma_with_cell, liberties, neighbours, on_board,
    same_chain, square, stone, takes_in_neighbours, with_cell, Cell, Grid,
};
use crate::marks::CellMarks;
use crate::point::{cells, coord, coord_opt};
use crate::rules::{
    captured, captured_among, dead_neighbour, initial_position, lemma_capture_frees,
    lemma_captured_among_all, lemma_captured_among_next, lemma_captured_among_whole,
    lemma_captured_whole, lemma_single_member, play, Position,
};
use cgmath::{point2, Point2};
use vstd::prelude::*;
use vstd::seq_lib::seq_to_set_is_finite;
use vstd::set_lib::{lemma_len_subset, lemma_set_disjoint_lens};

verus! {

/// One of the two sides.
#[derive(Debug, Clone, Copy, PartialEq, Eq, Structural)]
pub enum Player {
    Black,
    White,
}

/// The side that `player` plays against.
pub open spec fn opponent(player: Player) -> Player {
    match player {
        Player::Black => Player::White,
        Player::White => Player::Black,
    }
}

/// The side that `player` plays against.
pub fn other_player(player: Player) -> (other: Player)
    ensures
        other == opponent(player),
{
    match player {
        Player::Black => Player::White,
        Player::White => Player::Black,
    }
}

/// Why a move was not played.
#[derive(Debug, Clone, Copy, PartialEq, Eq, Structural)]
pub enum MoveRejection {
    /// The cell already holds a stone.
    CellOccupied,
    /// The cell is the ko point of this turn.
    KoViolation,
    /// The stone would be left in a chain without a liberty.
    SelfCapture,
    /// The point is not on the board.
    OutOfBounds,
}

/// What the player is told of a rejection.
pub open spec fn rejection_text(rejection: MoveRejection) -> Seq<char> {
    match rejection {
        MoveRejection::CellOccupied => "Can't play where a piece already is"@,
        MoveRejection::KoViolation => "Can't play in the ko"@,
        MoveRejection::SelfCapture => "Self capture"@,
        MoveRejection::OutOfBounds => "Can't play off the board"@,
    }
}

impl MoveRejection {
    /// The rejection in words.
    pub fn message(self) -> (text: &'static str)
        ensures
            text@ == rejection_text(self),
    {
        match self {
            MoveRejection::CellOccupied => "Can't play where a piece already is",
            MoveRejection::KoViolation => "Can't play in the ko",
            MoveRejection::SelfCapture => "Self capture",
            MoveRejection::OutOfBounds => "Can't play off the board",
        }
    }
}

/// A game of Go in progress.
pub struct BoardState {
    /// The side of the board.
    pub size: usize,
    /// The side that plays next.
    pub current_player: Player,
    /// The stones: `board[x][y]` is the cell at column `x`, row `y`.
    pub board: Vec<Vec<Option<Player>>>,
    /// The last stone played.
    pub last_move: Option<Point2<usize>>,
    /// The point that the side to move may not play on this turn.
    pub ko: Option<Point2<usize>>,
    /// How many black stones have been taken off the board.
    pub captured_black: u32,
    /// How many white stones have been taken off the board.
    pub captured_white: u32,
    /// White's compensation, less the half point.
    pub komi_minus_half: u32,
}

impl View for BoardState {
    type V = Position;

    open spec fn view(&self) -> Position {
        Position {
            grid: self.grid(),
            to_move: self.current_player,
            last_move: coord_opt(self.last_move),
            ko: coord_opt(self.ko),
            captures_by_black: self.captured_white as nat,
            captures_by_white: self.captured_black as nat,
            komi_minus_half: self.komi_minus_half as nat,
        }
    }
}

impl BoardState {
    /// The stones on the board.
    pub open spec fn grid(&self) -> Grid {
        Seq::new(self.board@.len(), |x: int| self.board@[x]@)
    }

    /// The board is a square of side `size`.
    pub open spec fn wf(&self) -> bool {
        &&& self.board@.len() == self.size
        &&& square(self.grid())
    }

    /// All but the stones on the board are the same in both states.
    pub open spec fn same_but_board(&self, other: &BoardState) -> bool {
        &&& self.size == other.size
        &&& self.current_player == other.current_player
        &&& self.last_move == other.last_move
        &&& self.ko == other.ko
        &&& self.captured_black == other.captured_black
        &&& self.captured_white == other.captured_white
        &&& self.komi_minus_half == other.komi_minus_half
    }

    /// An empty board of side `size`, Black to move.
    pub fn new(size: usize) -> (state: BoardState)
        ensures
            state.wf(),
            state.size == size,
            state@ == initial_position(size as nat),
    {
        let mut board: Vec<Vec<Option<Player>>> = Vec::new();
        let mut x: usize = 0;
        while x < size
            invariant
                x <= size,
                board@.len() == x,
                forall|i: int| 0 <= i < x ==> (#[trigger] board@[i])@ == Seq::new(
                    size as nat,
                    |y: int| None::<Player>,
                ),
            decreases size - x,
        {
            let mut row: Vec<Option<Player>> = Vec::new();
            let mut y: usize = 0;
            while y < size
                invariant
                    y <= size,
                    row@ == Seq::new(y as nat, |y: int| None::<Player>),
                decreases size - y,
            {
                row.push(None);
                y += 1;
            }
            board.push(row);
            x += 1;
        }
        let state = BoardState {
            size,
            current_player: Player::Black,
            board,
            last_move: None,
            ko: None,
            captured_black: 0,
            captured_white: 0,
            komi_minus_half: 6,
        };
        assert(state.grid() == empty_grid(size as nat));
        state
    }

    /// Whether the state can take a move: the board is a square of side `size`,
    /// and the captures of the side to move can grow by a board full of stones.
    pub fn is_playable(&self) -> (playable: bool)
        ensures
            playable == (self.wf() && self@.captures_by(self.current_player) + self.size
                * self.size <= u32::MAX),
    {
        let n = self.size;
        if self.board.len() != n {
            return false;
        }
        let mut x: usize = 0;
        while x < n
            invariant
                n == self.size,
                self.board@.len() == n,
                0 <= x <= n,
                forall|i: int| 0 <= i < x ==> (#[trigger] self.board@[i])@.len() == n,
            decreases n - x,
        {
            if self.board[x].len() != n {
                assert(self.grid()[x as int].len() != self.grid().len());
                return false;
            }
            x += 1;
        }
        assert(self.wf()) by {
            assert forall|i: int| 0 <= i < self.grid().len() implies (#[trigger] self.grid()[i]).len()
                == self.grid().len() by {
                assert(self.board@[i]@.len() == n);
            }
        }
        if n > 65535 {
            assert(n * n > u32::MAX) by (nonlinear_arith)
                requires
                    n > 65535,
            ;
            return false;
        }
        assert(n * n <= 65535 * 65535) by (nonlinear_arith)
            requires
                0 <= n <= 65535,
        ;
        let cells: u64 = (n as u64) * (n as u64);
        let taken: u64 = self.captures_made_by(self.current_player) as u64;
        taken + cells <= u32::MAX as u64
    }

    /// How many stones `player` has taken.
    pub fn captures_made_by(&self, player: Player) -> (count: u32)
        ensures
            count == self@.captures_by(player),
    {
        match player {
            Player::Black => self.captured_white,
            Player::White => self.captured_black,
        }
    }

    /// The side that plays next.
    pub fn current_player(&self) -> (player: Player)
        ensures
            player == self@.to_move,
    {
        self.current_player
    }

    /// The last stone played; none before the first move.
    pub fn last_move(&self) -> (point: Option<Point2<usize>>)
        ensures
            point == self.last_move,
            coord_opt(point) == self@.last_move,
    {
        self.last_move
    }

    /// The point that the side to move may not play on this turn, if there is one.
    pub fn ko_point(&self) -> (point: Option<Point2<usize>>)
        ensures
            point == self.ko,
            coord_opt(point) == self@.ko,
    {
        self.ko
    }

    /// The stone on `point`; none where the point is off the board.
    pub fn stone_at(&self, point: Point2<usize>) -> (found: Option<Player>)
        requires
            self.wf(),
        ensures
            found == stone(self.grid(), coord(point)),
    {
        if point.x < self.size && point.y < self.size {
            self.board[point.x][point.y]
        } else {
            None
        }
    }

    /// The points of the board next to `point`: left, right, up, down.
    pub fn get_neighbours(&self, point: &Point2<usize>) -> (around: Vec<Point2<usize>>)
        ensures
            cells(around@) == neighbours(self.size as int, coord(*point)),
    {
        let n = self.size;
        let mut around: Vec<Point2<usize>> = Vec::new();
        if point.y < n {
            if point.x > 0 && point.x - 1 < n {
                around.push(point2(point.x - 1, point.y));
            }
            if point.x < n - 1 {
                around.push(point2(point.x + 1, point.y));
            }
        }
        if point.x < n {
            if point.y > 0 && point.y - 1 < n {
                around.push(point2(point.x, point.y - 1));
            }
            if point.y < n - 1 {
                around.push(point2(point.x, point.y + 1));
            }
        }
        assert(cells(around@) =~= neighbours(n as int, coord(*point)));
        around
    }

    /// Whether the cell (x, y) holds a stone of `colour`.
    fn holds(&self, x: usize, y: usize, colour: Player) -> (held: bool)
        requires
            self.wf(),
        ensures
            held == (stone(self.grid(), (x as int, y as int)) == Some(colour)),
    {
        if x < self.size && y < self.size {
            match self.board[x][y] {
                Some(found) => found == colour,
                None => false,
            }
        } else {
            false
        }
    }

    /// The chain of the stone on `point`, each of its stones once, found by
    /// flood fill; empty where `point` holds no stone.
    pub fn get_line(&self, point: &Point2<usize>) -> (line: Vec<Point2<usize>>)
        requires
            self.wf(),
        ensures
            cells(line@).no_duplicates(),
            cells(line@).to_set() == chain(self.grid(), coord(*point)),
    {
        let n = self.size;
        let ghost g = self.grid();
        let ghost start = coord(*point);
        let mut line: Vec<Point2<usize>> = Vec::new();
        let colour = match self.stone_at(*point) {
            Some(colour) => colour,
            None => {
                assert(cells(line@).to_set() =~= chain(g, start)) by {
                    assert forall|c: Cell| !chain(g, start).contains(c) by {
                        if same_chain(g, start, c) {
                            lemma_chain_colour(g, start, c);
                        }
                    }
                }
                return line;
            },
        };
        let mut marked = CellMarks::new(n);
        let mut to_visit: Vec<Point2<usize>> = Vec::new();
        to_visit.push(*point);
        marked.insert(point.x, point.y);
        proof {
            lemma_chain_refl(g, start);
            lemma_all_cells(n as int);
            assert(cells(to_visit@)[0] == start);
        }
        while to_visit.len() > 0
            invariant
                self.wf(),
                n == self.size,
                g == self.grid(),
                start == coord(*point),
                stone(g, start) == Some(colour),
                marked@.contains(start),
                marked.wf(),
                marked.side() == n,
                all_cells(n as int).finite(),
                line@.no_duplicates(),
                to_visit@.no_duplicates(),
                forall|i: int, j: int|
                    0 <= i < line@.len() && 0 <= j < to_visit@.len() ==> line@[i] != to_visit@[j],
                forall|i: int| 0 <= i < line@.len() ==> marked@.contains(coord(#[trigger] line@[i])),
                forall|i: int|
                    0 <= i < to_visit@.len() ==> marked@.contains(coord(#[trigger] to_visit@[i])),
                forall|c: Cell|
                    marked@.contains(c) ==> cells(line@).contains(c) || cells(to_visit@).contains(
                        c,
                    ),
                forall|c: Cell| marked@.contains(c) ==> same_chain(g, start, c),
                forall|i: int, d: Cell|
                    0 <= i < line@.len() && #[trigger] adjacent(coord(line@[i]), d) && stone(g, d)
                        == Some(colour) ==> marked@.contains(d),
            decreases all_cells(n as int).difference(marked@).len() + to_visit@.len(),
        {
            let ghost before = all_cells(n as int).difference(marked@).len() + to_visit@.len();
            let ghost line_before = line@;
            let ghost to_visit_before = to_visit@;
            let current = to_visit.pop().unwrap();
            line.push(current);
            let around = self.get_neighbours(&current);
            proof {
                lemma_neighbours(n as int, coord(current));
                assert(cells(line@) =~= cells(line_before).push(coord(current)));
                assert(cells(to_visit_before) =~= cells(to_visit@).push(coord(current)));
                assert forall|c: Cell| marked@.contains(c) implies cells(line@).contains(c)
                    || cells(to_visit@).contains(c) by {
                    if cells(line_before).contains(c) {
                        let i = choose|i: int|
                            0 <= i < cells(line_before).len() && cells(line_before)[i] == c;
                        assert(cells(line@)[i] == c);
                    } else {
                        let i = choose|i: int|
                            0 <= i < cells(to_visit_before).len() && cells(to_visit_before)[i]
                                == c;
                        if i == to_visit@.len() {
                            assert(cells(line@)[line_before.len() as int] == c);
                        } else {
                            assert(cells(to_visit@)[i] == c);
                        }
                    }
                }
            }
            let mut k: usize = 0;
            while k < around.len()
                invariant
                    self.wf(),
                    n == self.size,
                    g == self.grid(),
                    start == coord(*point),
                    stone(g, start) == Some(colour),
                    marked@.contains(start),
                    marked.wf(),
                    marked.side() == n,
                    all_cells(n as int).finite(),
                    line@.len() > 0,
                    line@.last() == current,
                    0 <= k <= around@.len(),
                    cells(around@) == neighbours(n as int, coord(current)),
                    line@.no_duplicates(),
                    to_visit@.no_duplicates(),
                    forall|i: int, j: int|
                        0 <= i < line@.len() && 0 <= j < to_visit@.len() ==> line@[i]
                            != to_visit@[j],
                    forall|i: int|
                        0 <= i < line@.len() ==> marked@.contains(coord(#[trigger] line@[i])),
                    forall|i: int|
                        0 <= i < to_visit@.len() ==> marked@.contains(
                            coord(#[trigger] to_visit@[i]),
                        ),
                    forall|c: Cell|
                        marked@.contains(c) ==> cells(line@).contains(c) || cells(
                            to_visit@,
                        ).contains(c),
                    forall|c: Cell| marked@.contains(c) ==> same_chain(g, start, c),
                    forall|i: int, d: Cell|
                        0 <= i < line@.len() - 1 && #[trigger] adjacent(coord(line@[i]), d)
                            && stone(g, d) == Some(colour) ==> marked@.contains(d),
                    forall|j: int|
                        0 <= j < k && stone(g, #[trigger] cells(around@)[j]) == Some(colour)
                            ==> marked@.contains(cells(around@)[j]),
                    all_cells(n as int).difference(marked@).len() + to_visit@.len() == before - 1,
                decreases around@.len() - k,
            {
                let next = around[k];
                proof {
                    assert(cells(around@)[k as int] == coord(next));
                    assert(neighbours(n as int, coord(current)).contains(coord(next)));
                }
                if self.holds(next.x, next.y, colour) && !marked.contains(next.x, next.y) {
                    let ghost marked_before = marked@;
                    let ghost to_visit_mid = to_visit@;
                    marked.insert(next.x, next.y);
                    to_visit.push(next);
                    proof {
                        assert(same_chain(g, start, coord(next))) by {
                            assert(marked_before.contains(coord(current)));
                            lemma_chain_step(g, start, coord(current), coord(next));
                        }
                        assert(all_cells(n as int).difference(marked@) =~= all_cells(
                            n as int,
                        ).difference(marked_before).remove(coord(next)));
                        assert(cells(to_visit@) =~= cells(to_visit_mid).push(coord(next)));
                        assert forall|c: Cell| marked@.contains(c) implies cells(line@).contains(c)
                            || cells(to_visit@).contains(c) by {
                            if c == coord(next) {
                                assert(cells(to_visit@)[to_visit_mid.len() as int] == c);
                            } else if cells(to_visit_mid).contains(c) {
                                let i = choose|i: int|
                                    0 <= i < cells(to_visit_mid).len() && cells(to_visit_mid)[i]
                                        == c;
                                assert(cells(to_visit@)[i] == c);
                            }
                        }
                    }
                }
                k += 1;
            }
            proof {
                assert forall|i: int, d: Cell|
                    0 <= i < line@.len() && #[trigger] adjacent(coord(line@[i]), d) && stone(g, d)
                        == Some(colour) implies marked@.contains(d) by {
                    if i == line@.len() - 1 {
                        assert(neighbours(n as int, coord(current)).contains(d));
                        let j = choose|j: int|
                            0 <= j < cells(around@).len() && cells(around@)[j] == d;
                        assert(stone(g, cells(around@)[j]) == Some(colour));
                    }
                }
            }
        }
        proof {
            assert forall|c: Cell| cells(line@).contains(c) implies marked@.contains(c) by {
                let i = choose|i: int| 0 <= i < cells(line@).len() && cells(line@)[i] == c;
                assert(marked@.contains(coord(line@[i])));
            }
            assert(takes_in_neighbours(g, marked@, stone(g, start))) by {
                assert forall|c: Cell, d: Cell|
                    marked@.contains(c) && #[trigger] adjacent(c, d) && stone(g, d) == stone(
                        g,
                        start,
                    ) implies marked@.contains(d) by {
                    assert(cells(line@).contains(c));
                    let i = choose|i: int| 0 <= i < cells(line@).len() && cells(line@)[i] == c;
                    assert(adjacent(coord(line@[i]), d));
                }
            }
            assert forall|c: Cell| chain(g, start).contains(c) implies cells(line@).to_set().contains(
                c,
            ) by {
                lemma_closed_holds_chain(g, marked@, start, c);
            }
            assert(cells(line@).to_set() =~= chain(g, start));
            assert(cells(line@).no_duplicates()) by {
                assert forall|i: int, j: int|
                    0 <= i < cells(line@).len() && 0 <= j < cells(line@).len() && i != j implies cells(
                    line@,
                )[i] != cells(line@)[j] by {
                    assert(line@[i] != line@[j]);
                }
            }
        }
        line
    }

    /// The liberties of the stones of `line`: the empty cells of the board next
    /// to any of them, each once.
    pub fn get_liberties(&self, line: &Vec<Point2<usize>>) -> (found: Vec<Point2<usize>>)
        requires
            self.wf(),
        ensures
            cells(found@).no_duplicates(),
            cells(found@).to_set() == liberties(self.grid(), cells(line@).to_set()),
    {
        let n = self.size;
        let ghost g = self.grid();
        let mut found: Vec<Point2<usize>> = Vec::new();
        let mut seen = CellMarks::new(n);
        let mut i: usize = 0;
        while i < line.len()
            invariant
                self.wf(),
                n == self.size,
                g == self.grid(),
                seen.wf(),
                seen.side() == n,
                0 <= i <= line@.len(),
                found@.no_duplicates(),
                forall|j: int| 0 <= j < found@.len() ==> seen@.contains(coord(#[trigger] found@[j])),
                forall|c: Cell| seen@.contains(c) ==> cells(found@).contains(c),
                forall|c: Cell|
                    seen@.contains(c) ==> exists|j: int|
                        0 <= j < i && free_next_to(g, coord(#[trigger] line@[j]), c),
                forall|j: int, d: Cell|
                    0 <= j < i && #[trigger] free_next_to(g, coord(line@[j]), d) ==> seen@.contains(
                        d,
                    ),
            decreases line@.len() - i,
        {
            let stone_point = line[i];
            let around = self.get_neighbours(&stone_point);
            proof {
                lemma_neighbours(n as int, coord(stone_point));
            }
            let mut k: usize = 0;
            while k < around.len()
                invariant
                    self.wf(),
                    n == self.size,
                    g == self.grid(),
                    seen.wf(),
                    seen.side() == n,
                    0 <= i < line@.len(),
                    stone_point == line@[i as int],
                    0 <= k <= around@.len(),
                    cells(around@) == neighbours(n as int, coord(stone_point)),
                    forall|d: Cell|
                        neighbours(n as int, coord(stone_point)).contains(d) <==> (adjacent(
                            coord(stone_point),
                            d,
                        ) && 0 <= d.0 < n && 0 <= d.1 < n),
                    found@.no_duplicates(),
                    forall|j: int|
                        0 <= j < found@.len() ==> seen@.contains(coord(#[trigger] found@[j])),
                    forall|c: Cell| seen@.contains(c) ==> cells(found@).contains(c),
                    forall|c: Cell|
                        seen@.contains(c) ==> exists|j: int|
                            0 <= j <= i && free_next_to(g, coord(#[trigger] line@[j]), c),
                    forall|j: int, d: Cell|
                        0 <= j < i && #[trigger] free_next_to(g, coord(line@[j]), d)
                            ==> seen@.contains(d),
                    forall|j: int|
                        0 <= j < k && stone(g, #[trigger] cells(around@)[j]) is None
                            ==> seen@.contains(cells(around@)[j]),
                decreases around@.len() - k,
            {
                let next = around[k];
                proof {
                    assert(cells(around@)[k as int] == coord(next));
                    assert(neighbours(n as int, coord(stone_point)).contains(coord(next)));
                }
                if self.stone_at(next).is_none() && !seen.contains(next.x, next.y) {
                    let ghost found_before = found@;
                    seen.insert(next.x, next.y);
                    found.push(next);
                    proof {
                        assert(free_next_to(g, coord(line@[i as int]), coord(next)));
                        assert(cells(found@) =~= cells(found_before).push(coord(next)));
                        assert forall|c: Cell| seen@.contains(c) implies cells(found@).contains(
                            c,
                        ) by {
                            if c == coord(next) {
                                assert(cells(found@)[found_before.len() as int] == c);
                            } else {
                                let j = choose|j: int|
                                    0 <= j < cells(found_before).len() && cells(found_before)[j]
                                        == c;
                                assert(cells(found@)[j] == c);
                            }
                        }
                    }
                }
                k += 1;
            }
            proof {
                assert forall|j: int, d: Cell|
                    0 <= j < i + 1 && #[trigger] free_next_to(g, coord(line@[j]), d) implies seen@.contains(
                    d,
                ) by {
                    if j == i {
                        assert(neighbours(n as int, coord(stone_point)).contains(d));
                        let m = choose|m: int|
                            0 <= m < cells(around@).len() && cells(around@)[m] == d;
                        assert(stone(g, cells(around@)[m]) is None);
                    }
                }
            }
            i += 1;
        }
        proof {
            let stones = cells(line@).to_set();
            assert forall|c: Cell| cells(found@).to_set().contains(c) implies liberties(
                g,
                stones,
            ).contains(c) by {
                let m = choose|m: int| 0 <= m < cells(found@).len() && cells(found@)[m] == c;
                assert(seen@.contains(coord(found@[m])));
                let j = choose|j: int|
                    0 <= j < i && free_next_to(g, coord(#[trigger] line@[j]), c);
                assert(cells(line@)[j] == coord(line@[j]));
                assert(stones.contains(coord(line@[j])));
            }
            assert forall|c: Cell| liberties(g, stones).contains(c) implies cells(
                found@,
            ).to_set().contains(c) by {
                let s = choose|s: Cell| stones.contains(s) && free_next_to(g, s, c);
                let j = choose|j: int| 0 <= j < cells(line@).len() && cells(line@)[j] == s;
                assert(free_next_to(g, coord(line@[j]), c));
            }
            assert(cells(found@).to_set() =~= liberties(g, stones));
            assert(cells(found@).no_duplicates()) by {
                assert forall|a: int, b: int|
                    0 <= a < cells(found@).len() && 0 <= b < cells(found@).len() && a
                        != b implies cells(found@)[a] != cells(found@)[b] by {
                    assert(found@[a] != found@[b]);
                }
            }
        }
        found
    }

    /// Takes the stones of `line` off the board.
    fn remove_stones(&mut self, line: &Vec<Point2<usize>>)
        requires
            old(self).wf(),
            forall|i: int|
                0 <= i < line@.len() ==> on_board(old(self).grid(), coord(#[trigger] line@[i])),
        ensures
            final(self).wf(),
            final(self).same_but_board(old(self)),
            final(self).grid() == cleared(old(self).grid(), cells(line@).to_set()),
    {
        let ghost g = self.grid();
        let mut i: usize = 0;
        proof {
            assert(cells(line@.take(0)).to_set() =~= Set::<Cell>::empty());
            assert(cleared(g, Set::<Cell>::empty()) =~~= g);
        }
        while i < line.len()
            invariant
                self.wf(),
                self.same_but_board(old(self)),
                g == old(self).grid(),
                square(g),
                0 <= i <= line@.len(),
                forall|j: int| 0 <= j < line@.len() ==> on_board(g, coord(#[trigger] line@[j])),
                self.grid() == cleared(g, cells(line@.take(i as int)).to_set()),
            decreases line@.len() - i,
        {
            let q = line[i];
            let ghost before = self.grid();
            let ghost gone = cells(line@.take(i as int)).to_set();
            proof {
                lemma_cleared(g, gone);
                assert(on_board(g, coord(line@[i as int])));
                assert(on_board(before, coord(q)));
            }
            self.board[q.x][q.y] = None;
            proof {
                let gone_next = cells(line@.take(i + 1)).to_set();
                lemma_with_cell(before, coord(q), None);
                assert(self.grid() =~~= with_cell(before, coord(q), None));
                lemma_cleared(g, gone_next);
                assert(line@.take(i + 1) =~= line@.take(i as int).push(q));
                assert(cells(line@.take(i + 1)) =~= cells(line@.take(i as int)).push(coord(q)));
                cells(line@.take(i as int)).lemma_push_to_set_commute(coord(q));
                assert(gone_next == gone.insert(coord(q)));
                assert(self.grid() =~~= cleared(g, gone_next));
            }
            i += 1;
        }
        assert(line@.take(line@.len() as int) =~= line@);
    }

    /// Takes off the board the chains of the other side next to `point` that the
    /// stone just placed there has left without a liberty; gives their number
    /// of stones and, where there is any, one of them.
    fn capture_around(&mut self, point: Point2<usize>) -> (taken: (usize, Point2<usize>))
        requires
            old(self).wf(),
            stone(old(self).grid(), coord(point)) == Some(old(self).current_player),
            old(self).size * old(self).size <= usize::MAX,
        ensures
            final(self).wf(),
            final(self).same_but_board(old(self)),
            final(self).grid() == cleared(
                old(self).grid(),
                captured(old(self).grid(), coord(point), old(self).current_player),
            ),
            taken.0 == captured(old(self).grid(), coord(point), old(self).current_player).len(),
            taken.0 > 0 ==> captured(
                old(self).grid(),
                coord(point),
                old(self).current_player,
            ).contains(coord(taken.1)),
    {
        let ghost placed = self.grid();
        let ghost p = coord(point);
        let n = self.size;
        let mover = self.current_player;
        let other = other_player(mover);
        let around = self.get_neighbours(&point);
        let mut count: usize = 0;
        let mut last = point;
        let mut i: usize = 0;
        proof {
            lemma_neighbours(n as int, p);
            assert(captured_among(placed, p, mover, cells(around@), 0) =~= Set::<Cell>::empty());
            lemma_cleared(placed, Set::<Cell>::empty());
            assert(cleared(placed, Set::<Cell>::empty()) =~~= placed);
        }
        while i < around.len()
            invariant
                self.wf(),
                self.same_but_board(old(self)),
                placed == old(self).grid(),
                square(placed),
                placed.len() == n,
                n == self.size,
                n * n <= usize::MAX,
                p == coord(point),
                mover == old(self).current_player,
                other == opponent(mover),
                0 <= i <= around@.len(),
                cells(around@) == neighbours(n as int, p),
                forall|d: Cell|
                    neighbours(n as int, p).contains(d) <==> (adjacent(p, d) && 0 <= d.0 < n && 0
                        <= d.1 < n),
                self.grid() == cleared(
                    placed,
                    captured_among(placed, p, mover, cells(around@), i as int),
                ),
                count == captured_among(placed, p, mover, cells(around@), i as int).len(),
                count > 0 ==> captured_among(placed, p, mover, cells(around@), i as int).contains(
                    coord(last),
                ),
            decreases around@.len() - i,
        {
            let next = around[i];
            let ghost nb = coord(next);
            let ghost taken = captured_among(placed, p, mover, cells(around@), i as int);
            let ghost current = self.grid();
            proof {
                assert(cells(around@)[i as int] == nb);
                assert(neighbours(n as int, p).contains(nb));
                lemma_captured_among_whole(placed, p, mover, cells(around@), i as int);
                lemma_captured_among_whole(placed, p, mover, cells(around@), i + 1);
                lemma_captured_among_next(placed, p, mover, cells(around@), i as int);
                lemma_cleared(placed, taken);
                lemma_all_cells(n as int);
                lemma_len_subset(
                    captured_among(placed, p, mover, cells(around@), i + 1),
                    all_cells(n as int),
                );
            }
            if self.holds(next.x, next.y, other) {
                let line = self.get_line(&next);
                let liberties_found = self.get_liberties(&line);
                proof {
                    assert(!taken.contains(nb));
                    assert(chain(current, nb) =~= chain(placed, nb)) by {
                        assert forall|b: Cell|
                            same_chain(current, nb, b) == same_chain(placed, nb, b) by {
                            lemma_clearing_keeps_chain(placed, taken, other, nb, b);
                        }
                    }
                    if liberties_found@.len() > 0 {
                        assert(cells(liberties_found@).to_set().contains(
                            cells(liberties_found@)[0],
                        ));
                        assert(has_liberty(current, nb));
                        lemma_clearing_adds_no_liberty(placed, taken, other, nb);
                    } else {
                        assert(!has_liberty(current, nb)) by {
                            if has_liberty(current, nb) {
                                let l = choose|l: Cell|
                                    liberties(current, chain(current, nb)).contains(l);
                                assert(cells(liberties_found@).contains(l));
                            }
                        }
                        if has_liberty(placed, nb) {
                            lemma_clearing_keeps_liberty(placed, taken, other, nb);
                        }
                    }
                    assert(dead_neighbour(placed, p, mover, nb) == (liberties_found@.len() == 0));
                }
                if liberties_found.len() == 0 {
                    proof {
                        assert forall|j: int| 0 <= j < line@.len() implies on_board(
                            current,
                            coord(#[trigger] line@[j]),
                        ) by {
                            assert(cells(line@).to_set().contains(cells(line@)[j]));
                            lemma_chain_colour(current, nb, coord(line@[j]));
                        }
                        lemma_chain_refl(placed, nb);
                        assert(cells(line@).to_set().contains(nb));
                        assert(cells(line@).contains(nb));
                        assert(line@.len() > 0);
                        assert(cells(line@).to_set().contains(cells(line@)[0]));
                        assert(taken.disjoint(chain(placed, nb))) by {
                            assert forall|c: Cell|
                                taken.contains(c) && chain(placed, nb).contains(c) implies false by {
                                lemma_chain_sym(placed, nb, c);
                                lemma_closed_holds_chain(placed, taken, c, nb);
                            }
                        }
                        seq_to_set_is_finite(cells(line@));
                        cells(line@).unique_seq_to_set();
                        lemma_set_disjoint_lens(taken, chain(placed, nb));
                    }
                    self.remove_stones(&line);
                    count = count + line.len();
                    last = line[0];
                    proof {
                        assert(self.grid() =~~= cleared(
                            placed,
                            taken.union(chain(placed, nb)),
                        )) by {
                            lemma_cleared(current, chain(placed, nb));
                            lemma_cleared(placed, taken.union(chain(placed, nb)));
                        }
                    }
                }
            } else {
                proof {
                    if dead_neighbour(placed, p, mover, nb) {
                        assert(taken.contains(nb));
                        assert(taken.union(chain(placed, nb)) =~= taken) by {
                            assert forall|c: Cell| chain(placed, nb).contains(c) implies taken.contains(
                                c,
                            ) by {
                                lemma_closed_holds_chain(placed, taken, nb, c);
                            }
                        }
                    }
                }
            }
            i += 1;
        }
        proof {
            lemma_captured_among_all(placed, p, mover);
        }
        (count, last)
    }

    /// Plays a stone of the side to move on `point`, takes what it captures and
    /// hands the turn over; or rejects the move and leaves the game as it was.
    pub fn try_play(&mut self, point: Point2<usize>) -> (result: Result<(), MoveRejection>)
        requires
            old(self).wf(),
            old(self)@.captures_by(old(self).current_player) + old(self).size * old(self).size
                <= u32::MAX,
        ensures
            final(self).wf(),
            final(self).size == old(self).size,
            result == play(old(self)@, coord(point)).0,
            final(self)@ == play(old(self)@, coord(point)).1,
    {
        let ghost before = self.grid();
        let ghost p = coord(point);
        if point.x >= self.size || point.y >= self.size {
            return Err(MoveRejection::OutOfBounds);
        }
        if self.board[point.x][point.y].is_some() {
            return Err(MoveRejection::CellOccupied);
        }
        if let Some(ko) = self.ko {
            if point.x == ko.x && point.y == ko.y {
                return Err(MoveRejection::KoViolation);
            }
        }
        let mover = self.current_player;
        self.board[point.x][point.y] = Some(mover);
        let ghost placed = self.grid();
        let ghost taken = captured(placed, p, mover);
        let ghost after = cleared(placed, taken);
        proof {
            assert(placed =~~= with_cell(before, p, Some(mover)));
            lemma_with_cell(before, p, Some(mover));
            lemma_captured_whole(placed, p, mover);
            lemma_cleared(placed, taken);
        }
        let (count, last) = self.capture_around(point);
        let played_line = self.get_line(&point);
        let liberties_found = self.get_liberties(&played_line);
        proof {
            if liberties_found@.len() > 0 {
                assert(cells(liberties_found@).to_set().contains(cells(liberties_found@)[0]));
                assert(has_liberty(after, p));
            } else {
                assert(!has_liberty(after, p)) by {
                    if has_liberty(after, p) {
                        let l = choose|l: Cell| liberties(after, chain(after, p)).contains(l);
                        assert(cells(liberties_found@).contains(l));
                    }
                }
            }
        }
        if liberties_found.len() == 0 {
            proof {
                if count > 0 {
                    lemma_capture_frees(placed, p, mover, coord(last));
                }
                assert(taken =~= Set::<Cell>::empty()) by {
                    if taken.len() != 0 {
                    }
                }
                assert(after =~~= placed);
                assert(self.grid() == placed);
            }
            self.board[point.x][point.y] = None;
            proof {
                assert(self.grid() =~~= with_cell(placed, p, None));
                assert(with_cell(placed, p, None) =~~= before);
            }
            return Err(MoveRejection::SelfCapture);
        }
        proof {
            seq_to_set_is_finite(cells(played_line@));
            cells(played_line@).unique_seq_to_set();
            seq_to_set_is_finite(cells(liberties_found@));
            cells(liberties_found@).unique_seq_to_set();
            if count == 1 {
                lemma_single_member(taken, coord(last), taken.choose());
            }
        }
        let ko = if count == 1 && played_line.len() == 1 && liberties_found.len() == 1 {
            Some(last)
        } else {
            None
        };
        match mover {
            Player::Black => {
                self.captured_white = self.captured_white + count as u32;
            },
            Player::White => {
                self.captured_black = self.captured_black + count as u32;
            },
        }
        self.current_player = other_player(mover);
        self.last_move = Some(point);
        self.ko = ko;
        Ok(())
    }
}

} // verus!
