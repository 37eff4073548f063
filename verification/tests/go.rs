use cgmath::{point2, Point2};
use go_game::go::{other_player, BoardState, MoveRejection, Player};
use go_game::hoshi::hoshi_points;

fn sorted(points: Vec<Point2<usize>>) -> Vec<(usize, usize)> {
    let mut cells: Vec<(usize, usize)> = points.iter().map(|p| (p.x, p.y)).collect();
    cells.sort();
    cells
}

fn stones(state: &BoardState) -> usize {
    state.board.iter().map(|column| column.iter().filter(|cell| cell.is_some()).count()).sum()
}

fn every_chain_has_a_liberty(state: &BoardState) -> bool {
    for x in 0..state.size {
        for y in 0..state.size {
            if state.board[x][y].is_some() {
                let line = state.get_line(&point2(x, y));
                if state.get_liberties(&line).is_empty() {
                    return false;
                }
            }
        }
    }
    true
}

/// White to move takes the black stone on (2,1) by playing (1,1).
fn ko_shape() -> BoardState {
    let mut state = BoardState::new(19);
    state.board[1][0] = Some(Player::Black);
    state.board[0][1] = Some(Player::Black);
    state.board[1][2] = Some(Player::Black);
    state.board[2][1] = Some(Player::Black);
    state.board[2][0] = Some(Player::White);
    state.board[3][1] = Some(Player::White);
    state.board[2][2] = Some(Player::White);
    state.current_player = Player::White;
    state
}

#[test]
#[allow(non_snake_case)]
fn onlyPlayEachOnce() {
    let mut state = BoardState::new(19);
    assert_eq!(state.try_play(point2(10, 10)).is_ok(), true);
    assert_eq!(state.try_play(point2(10, 10)).is_ok(), false);
}

#[test]
fn ko() {
    let mut state = BoardState::new(19);
    state.ko = Some(point2(10, 10));
    assert_eq!(state.try_play(point2(10, 10)).is_ok(), false);
}

#[test]
fn capture() {
    let mut state = BoardState::new(19);

    state.board[9][10] = Some(Player::Black);
    state.board[10][9] = Some(Player::Black);
    state.board[11][10] = Some(Player::Black);
    state.board[10][10] = Some(Player::White);

    assert_eq!(state.try_play(point2(10, 11)).is_ok(), true);

    assert_eq!(state.captured_white, 1);
    assert_eq!(state.captured_black, 0);
    assert_eq!(state.board[10][10], None);
}

#[test]
fn new_board_is_empty_and_black_moves_first() {
    for size in [0usize, 1, 9, 13, 19] {
        let state = BoardState::new(size);
        assert_eq!(state.size, size);
        assert_eq!(state.board.len(), size);
        assert!(state.board.iter().all(|column| column.len() == size));
        assert_eq!(stones(&state), 0);
        assert_eq!(state.current_player, Player::Black);
        assert_eq!(state.last_move, None);
        assert_eq!(state.ko, None);
        assert_eq!(state.captured_black, 0);
        assert_eq!(state.captured_white, 0);
        assert_eq!(state.komi_minus_half, 6);
    }
}

#[test]
fn other_player_swaps_the_sides() {
    assert_eq!(other_player(Player::Black), Player::White);
    assert_eq!(other_player(Player::White), Player::Black);
}

#[test]
fn first_move_on_empty_board() {
    let mut state = BoardState::new(19);
    assert_eq!(state.try_play(point2(9, 9)), Ok(()));
    assert_eq!(state.current_player, Player::White);
    assert_eq!(state.last_move, Some(point2(9, 9)));
    assert_eq!(state.board[9][9], Some(Player::Black));
    assert_eq!(stones(&state), 1);
    assert_eq!(state.captures_made_by(Player::Black), 0);
    assert_eq!(state.captures_made_by(Player::White), 0);
    assert_eq!(state.ko, None);
}

#[test]
fn capture_of_a_stone_with_one_liberty_left() {
    let mut state = BoardState::new(19);
    state.board[9][10] = Some(Player::Black);
    state.board[10][9] = Some(Player::Black);
    state.board[11][10] = Some(Player::Black);
    state.board[10][10] = Some(Player::White);

    assert_eq!(state.try_play(point2(10, 11)), Ok(()));
    assert_eq!(state.board[10][10], None);
    assert_eq!(state.board[10][11], Some(Player::Black));
    assert_eq!(state.captures_made_by(Player::Black), 1);
    assert_eq!(state.captures_made_by(Player::White), 0);
    assert_eq!(state.current_player, Player::White);
    assert_eq!(stones(&state), 4);
    // The stone that took has four liberties, so this is no ko.
    assert_eq!(state.ko, None);
}

#[test]
fn self_capture_is_rejected() {
    let mut state = BoardState::new(19);
    state.board[9][10] = Some(Player::White);
    state.board[11][10] = Some(Player::White);
    state.board[10][9] = Some(Player::White);
    state.board[10][11] = Some(Player::White);
    let before = state.board.clone();

    assert_eq!(state.try_play(point2(10, 10)), Err(MoveRejection::SelfCapture));
    assert_eq!(state.board, before);
    assert_eq!(state.current_player, Player::Black);
    assert_eq!(state.last_move, None);
    assert_eq!(state.ko, None);
    assert_eq!(state.captured_black, 0);
    assert_eq!(state.captured_white, 0);
}

#[test]
fn self_capture_of_a_larger_chain_is_rejected() {
    let mut state = BoardState::new(9);
    // Black on (0,0); White on (2,0), (0,1), (1,1): Black on (1,0) would join
    // (0,0) in a chain of two without a liberty.
    state.board[0][0] = Some(Player::Black);
    state.board[2][0] = Some(Player::White);
    state.board[0][1] = Some(Player::White);
    state.board[1][1] = Some(Player::White);
    let before = state.board.clone();
    assert_eq!(state.try_play(point2(1, 0)), Err(MoveRejection::SelfCapture));
    assert_eq!(state.board, before);
    assert_eq!(state.current_player, Player::Black);
}

#[test]
fn a_move_that_captures_is_no_self_capture() {
    let mut state = BoardState::new(9);
    // White on (0,0) has its last liberty on (1,0); Black on (1,0) has none of
    // its own until the white stone is off.
    state.board[0][0] = Some(Player::White);
    state.board[0][1] = Some(Player::Black);
    state.board[2][0] = Some(Player::White);
    state.board[1][1] = Some(Player::White);
    assert_eq!(state.try_play(point2(1, 0)), Ok(()));
    assert_eq!(state.board[0][0], None);
    assert_eq!(state.board[1][0], Some(Player::Black));
    assert_eq!(state.captures_made_by(Player::Black), 1);
    // One stone taken, and the stone that took stands alone with one liberty.
    assert_eq!(state.ko, Some(point2(0, 0)));
}

#[test]
fn occupied_cell_is_rejected_and_nothing_changes() {
    let mut state = BoardState::new(19);
    state.board[5][5] = Some(Player::White);
    state.board[3][3] = Some(Player::Black);
    state.last_move = Some(point2(5, 5));
    state.ko = Some(point2(7, 7));
    state.captured_black = 2;
    state.captured_white = 3;
    let before = state.board.clone();

    assert_eq!(state.try_play(point2(5, 5)), Err(MoveRejection::CellOccupied));
    assert_eq!(state.try_play(point2(3, 3)), Err(MoveRejection::CellOccupied));
    assert_eq!(state.board, before);
    assert_eq!(state.current_player, Player::Black);
    assert_eq!(state.last_move, Some(point2(5, 5)));
    assert_eq!(state.ko, Some(point2(7, 7)));
    assert_eq!(state.captured_black, 2);
    assert_eq!(state.captured_white, 3);
}

#[test]
fn occupied_ko_point_is_rejected_as_occupied() {
    let mut state = BoardState::new(19);
    state.board[5][5] = Some(Player::White);
    state.ko = Some(point2(5, 5));
    assert_eq!(state.try_play(point2(5, 5)), Err(MoveRejection::CellOccupied));
}

#[test]
fn point_off_the_board_is_rejected() {
    let mut state = BoardState::new(9);
    assert_eq!(state.try_play(point2(9, 0)), Err(MoveRejection::OutOfBounds));
    assert_eq!(state.try_play(point2(0, 9)), Err(MoveRejection::OutOfBounds));
    assert_eq!(state.try_play(point2(usize::MAX, usize::MAX)), Err(MoveRejection::OutOfBounds));
    assert_eq!(stones(&state), 0);
    assert_eq!(state.current_player, Player::Black);
    assert_eq!(state.last_move, None);

    let mut none = BoardState::new(0);
    assert_eq!(none.try_play(point2(0, 0)), Err(MoveRejection::OutOfBounds));
}

#[test]
fn ko_point_is_rejected_for_one_turn() {
    let mut state = ko_shape();
    assert_eq!(state.try_play(point2(1, 1)), Ok(()));
    assert_eq!(state.board[2][1], None);
    assert_eq!(state.captures_made_by(Player::White), 1);
    assert_eq!(state.captured_black, 1);
    assert_eq!(state.ko, Some(point2(2, 1)));
    assert_eq!(state.current_player, Player::Black);

    let before = state.board.clone();
    assert_eq!(state.try_play(point2(2, 1)), Err(MoveRejection::KoViolation));
    assert_eq!(state.board, before);
    assert_eq!(state.current_player, Player::Black);
    assert_eq!(state.ko, Some(point2(2, 1)));
    assert_eq!(state.last_move, Some(point2(1, 1)));

    // A move elsewhere lifts the restriction.
    assert_eq!(state.try_play(point2(10, 10)), Ok(()));
    assert_eq!(state.ko, None);
    assert_eq!(state.try_play(point2(10, 11)), Ok(()));
    assert_eq!(state.try_play(point2(2, 1)), Ok(()));
    assert_eq!(state.board[1][1], None);
    assert_eq!(state.captures_made_by(Player::Black), 1);
    // Black has taken back, and now White may not at once.
    assert_eq!(state.ko, Some(point2(1, 1)));
    assert_eq!(state.try_play(point2(1, 1)), Err(MoveRejection::KoViolation));
}

#[test]
fn ko_point_is_open_one_ply_later() {
    let mut state = ko_shape();
    assert_eq!(state.try_play(point2(1, 1)), Ok(()));
    assert_eq!(state.try_play(point2(2, 1)), Err(MoveRejection::KoViolation));
    assert_eq!(state.try_play(point2(10, 10)), Ok(()));
    // One ply later the same point is played without complaint.
    assert_eq!(state.try_play(point2(2, 1)), Ok(()));
    assert_eq!(state.board[2][1], Some(Player::White));
}

#[test]
fn seeded_ko_point_is_rejected() {
    let mut state = BoardState::new(19);
    state.ko = Some(point2(10, 10));
    assert_eq!(state.try_play(point2(10, 10)), Err(MoveRejection::KoViolation));
    assert_eq!(stones(&state), 0);
    assert_eq!(state.try_play(point2(10, 11)), Ok(()));
    assert_eq!(state.ko, None);
    assert_eq!(state.try_play(point2(10, 10)), Ok(()));
}

#[test]
fn turns_alternate_over_played_moves_only() {
    let mut state = BoardState::new(9);
    let moves = [(0usize, 0usize), (1, 1), (2, 2), (3, 3), (4, 4), (5, 5), (6, 6)];
    for (k, (x, y)) in moves.iter().enumerate() {
        let expected = if k % 2 == 0 { Player::Black } else { Player::White };
        assert_eq!(state.current_player, expected);
        assert_eq!(state.try_play(point2(*x, *y)), Ok(()));
        // A rejected move does not pass the turn.
        assert_eq!(state.try_play(point2(*x, *y)), Err(MoveRejection::CellOccupied));
    }
    assert_eq!(state.current_player, Player::White);
}

#[test]
fn a_block_of_four_is_counted_once_each() {
    let mut state = BoardState::new(9);
    for (x, y) in [(3usize, 3usize), (4, 3), (3, 4), (4, 4)] {
        state.board[x][y] = Some(Player::White);
    }
    for (x, y) in [(3usize, 2usize), (4, 2), (2, 3), (2, 4), (3, 5), (4, 5), (5, 3)] {
        state.board[x][y] = Some(Player::Black);
    }
    let line = state.get_line(&point2(3, 3));
    assert_eq!(sorted(line), vec![(3, 3), (3, 4), (4, 3), (4, 4)]);

    assert_eq!(state.try_play(point2(5, 4)), Ok(()));
    assert_eq!(state.captures_made_by(Player::Black), 4);
    assert_eq!(state.captured_white, 4);
    assert_eq!(state.captured_black, 0);
    for (x, y) in [(3usize, 3usize), (4, 3), (3, 4), (4, 4)] {
        assert_eq!(state.board[x][y], None);
    }
    assert_eq!(stones(&state), 8);
    assert_eq!(state.ko, None);
}

#[test]
fn one_move_takes_several_chains() {
    let mut state = BoardState::new(9);
    // White stones on (3,4) and (5,4) and a pair on (4,5), (4,6), each chain
    // with its last liberty on (4,4).
    state.board[3][4] = Some(Player::White);
    state.board[5][4] = Some(Player::White);
    state.board[4][5] = Some(Player::White);
    state.board[4][6] = Some(Player::White);
    for (x, y) in [
        (2usize, 4usize),
        (3, 3),
        (3, 5),
        (6, 4),
        (5, 3),
        (5, 5),
        (3, 6),
        (5, 6),
        (4, 7),
    ] {
        state.board[x][y] = Some(Player::Black);
    }
    state.captured_white = 10;
    assert_eq!(state.try_play(point2(4, 4)), Ok(()));
    assert_eq!(state.captures_made_by(Player::Black), 14);
    assert_eq!(state.captures_made_by(Player::White), 0);
    for (x, y) in [(3usize, 4usize), (5, 4), (4, 5), (4, 6)] {
        assert_eq!(state.board[x][y], None);
    }
    assert_eq!(state.board[4][4], Some(Player::Black));
    assert_eq!(state.ko, None);
    assert!(every_chain_has_a_liberty(&state));
}

#[test]
fn white_captures_count_for_white() {
    let mut state = BoardState::new(9);
    state.board[0][0] = Some(Player::Black);
    state.board[1][0] = Some(Player::White);
    state.current_player = Player::White;
    assert_eq!(state.try_play(point2(0, 1)), Ok(()));
    assert_eq!(state.board[0][0], None);
    assert_eq!(state.captures_made_by(Player::White), 1);
    assert_eq!(state.captures_made_by(Player::Black), 0);
    assert_eq!(state.captured_black, 1);
    assert_eq!(state.captured_white, 0);
    assert_eq!(state.current_player, Player::Black);
}

#[test]
fn no_chain_is_left_without_a_liberty() {
    let mut state = BoardState::new(5);
    let mut played = 0;
    // Both sides fill the board in a fixed order, whatever is legal.
    for round in 0..4 {
        for x in 0..5usize {
            for y in 0..5usize {
                let point = point2((x * 3 + round) % 5, (y * 2 + x) % 5);
                let mover = state.current_player;
                let before = state.board.clone();
                match state.try_play(point) {
                    Ok(()) => {
                        played += 1;
                        assert_eq!(state.current_player, other_player(mover));
                        assert_eq!(state.last_move, Some(point));
                        assert_eq!(state.board[point.x][point.y], Some(mover));
                    }
                    Err(_) => {
                        assert_eq!(state.current_player, mover);
                        assert_eq!(state.board, before);
                    }
                }
                assert!(every_chain_has_a_liberty(&state));
                if let Some(ko) = state.ko {
                    assert_eq!(state.board[ko.x][ko.y], None);
                }
            }
        }
    }
    assert!(played > 25);
    let on_board = stones(&state) as u32;
    assert!(state.captured_black + state.captured_white + on_board == played);
}

#[test]
fn neighbours_in_the_middle_on_the_edge_and_in_the_corner() {
    let state = BoardState::new(19);
    let cells = |points: Vec<Point2<usize>>| -> Vec<(usize, usize)> {
        points.iter().map(|p| (p.x, p.y)).collect()
    };
    assert_eq!(
        cells(state.get_neighbours(&point2(10, 10))),
        vec![(9, 10), (11, 10), (10, 9), (10, 11)]
    );
    assert_eq!(cells(state.get_neighbours(&point2(0, 0))), vec![(1, 0), (0, 1)]);
    assert_eq!(cells(state.get_neighbours(&point2(18, 18))), vec![(17, 18), (18, 17)]);
    assert_eq!(cells(state.get_neighbours(&point2(0, 7))), vec![(1, 7), (0, 6), (0, 8)]);
    assert_eq!(cells(state.get_neighbours(&point2(7, 18))), vec![(6, 18), (8, 18), (7, 17)]);
    // From just off the board only the cell on the edge is near.
    assert_eq!(cells(state.get_neighbours(&point2(19, 4))), vec![(18, 4)]);
    assert_eq!(cells(state.get_neighbours(&point2(4, 19))), vec![(4, 18)]);
    assert_eq!(cells(state.get_neighbours(&point2(19, 19))), vec![]);
    assert_eq!(cells(state.get_neighbours(&point2(usize::MAX, 0))), vec![]);

    let single = BoardState::new(1);
    assert_eq!(cells(single.get_neighbours(&point2(0, 0))), vec![]);
    let none = BoardState::new(0);
    assert_eq!(cells(none.get_neighbours(&point2(0, 0))), vec![]);
}

#[test]
fn line_is_the_connected_stones_of_one_colour() {
    let mut state = BoardState::new(9);
    for (x, y) in [(1usize, 1usize), (1, 2), (2, 2), (3, 2), (3, 3)] {
        state.board[x][y] = Some(Player::Black);
    }
    state.board[2][1] = Some(Player::White);
    state.board[4][4] = Some(Player::Black);
    state.board[3][4] = Some(Player::White);

    let expected = vec![(1, 1), (1, 2), (2, 2), (3, 2), (3, 3)];
    assert_eq!(sorted(state.get_line(&point2(1, 1))), expected);
    assert_eq!(sorted(state.get_line(&point2(3, 3))), expected);
    assert_eq!(sorted(state.get_line(&point2(2, 1))), vec![(2, 1)]);
    assert_eq!(sorted(state.get_line(&point2(4, 4))), vec![(4, 4)]);
    assert_eq!(state.get_line(&point2(0, 0)), vec![]);
    assert_eq!(state.get_line(&point2(9, 9)), vec![]);
}

#[test]
fn liberties_are_the_empty_cells_next_to_the_line() {
    let mut state = BoardState::new(9);
    state.board[0][0] = Some(Player::Black);
    state.board[1][0] = Some(Player::Black);
    state.board[2][0] = Some(Player::White);
    let line = state.get_line(&point2(0, 0));
    assert_eq!(sorted(state.get_liberties(&line)), vec![(0, 1), (1, 1)]);
    let white = state.get_line(&point2(2, 0));
    assert_eq!(sorted(state.get_liberties(&white)), vec![(2, 1), (3, 0)]);
    assert_eq!(state.get_liberties(&vec![]), vec![]);

    // A cell next to two stones of the line is a liberty once.
    let mut bent = BoardState::new(9);
    bent.board[4][4] = Some(Player::Black);
    bent.board[5][4] = Some(Player::Black);
    bent.board[5][5] = Some(Player::Black);
    let line = bent.get_line(&point2(4, 4));
    assert_eq!(
        sorted(bent.get_liberties(&line)),
        vec![(3, 4), (4, 3), (4, 5), (5, 3), (5, 6), (6, 4), (6, 5)]
    );
}

#[test]
fn stone_at_reads_the_board_and_nothing_off_it() {
    let mut state = BoardState::new(9);
    state.board[2][7] = Some(Player::White);
    assert_eq!(state.stone_at(point2(2, 7)), Some(Player::White));
    assert_eq!(state.stone_at(point2(7, 2)), None);
    assert_eq!(state.stone_at(point2(9, 0)), None);
    assert_eq!(state.stone_at(point2(0, 9)), None);
    assert_eq!(state.stone_at(point2(usize::MAX, usize::MAX)), None);
}

#[test]
fn captures_made_by_reads_each_side() {
    let mut state = BoardState::new(9);
    state.captured_white = 4;
    state.captured_black = 7;
    assert_eq!(state.captures_made_by(Player::Black), 4);
    assert_eq!(state.captures_made_by(Player::White), 7);
}

#[test]
fn rejections_in_words() {
    assert_eq!(MoveRejection::CellOccupied.message(), "Can't play where a piece already is");
    assert_eq!(MoveRejection::KoViolation.message(), "Can't play in the ko");
    assert_eq!(MoveRejection::SelfCapture.message(), "Self capture");
    assert_eq!(MoveRejection::OutOfBounds.message(), "Can't play off the board");
}

#[test]
fn playable_states_are_square_with_room_to_count() {
    let mut state = BoardState::new(19);
    assert!(state.is_playable());
    assert!(BoardState::new(0).is_playable());

    // Black to move: it is Black's count, of white stones taken, that must have room.
    state.captured_white = u32::MAX - 361;
    assert!(state.is_playable());
    state.captured_white = u32::MAX - 360;
    assert!(!state.is_playable());
    state.current_player = Player::White;
    assert!(state.is_playable());
    state.captured_black = u32::MAX;
    assert!(!state.is_playable());
    state.captured_black = 0;
    state.captured_white = 0;

    state.board[3].pop();
    assert!(!state.is_playable());
    state.board[3].push(None);
    assert!(state.is_playable());
    state.board.pop();
    assert!(!state.is_playable());
    state.board.push(vec![None; 19]);
    assert!(state.is_playable());
    state.size = 18;
    assert!(!state.is_playable());
}

#[test]
fn star_points_of_the_three_boards() {
    let cells = |points: Vec<Point2<usize>>| -> Vec<(usize, usize)> {
        points.iter().map(|p| (p.x, p.y)).collect()
    };
    assert_eq!(
        cells(hoshi_points(19)),
        vec![(3, 3), (9, 3), (15, 3), (3, 9), (9, 9), (15, 9), (3, 15), (9, 15), (15, 15)]
    );
    assert_eq!(cells(hoshi_points(13)), vec![(3, 3), (10, 3), (6, 6), (3, 10), (10, 10)]);
    assert_eq!(cells(hoshi_points(9)), vec![(2, 2), (6, 2), (4, 4), (2, 6), (6, 6)]);
    assert_eq!(cells(hoshi_points(0)), vec![]);
    assert_eq!(cells(hoshi_points(10)), vec![]);
    assert_eq!(cells(hoshi_points(usize::MAX)), vec![]);
}

#[test]
fn accessors_read_the_state() {
    let mut state = ko_shape();
    assert_eq!(state.current_player(), Player::White);
    assert_eq!(state.last_move(), None);
    assert_eq!(state.ko_point(), None);
    assert_eq!(state.try_play(point2(1, 1)), Ok(()));
    assert_eq!(state.current_player(), Player::Black);
    assert_eq!(state.last_move(), Some(point2(1, 1)));
    assert_eq!(state.ko_point(), Some(point2(2, 1)));
}
