use die_agony::board::{Board, Cell, BOARD_WIDTH};
use die_agony::direction::Direction;

fn value_at(board: &Board, row: usize, col: usize) -> i16 {
    board.get_cell_at((row, col)).unwrap().get_value()
}

#[test]
fn try_moving_from_bottom_left() {
    let board = Board::new();
    let cell = Cell {
        value: value_at(&board, BOARD_WIDTH - 1, 0),
        position: (BOARD_WIDTH - 1, 0),
    };
    assert!(!cell.is_end_cell());
    assert_eq!(cell, board.start_cell());

    assert!(board.move_left(&cell).is_none());
    assert!(board.move_in(&cell, Direction::LEFT).is_none());

    assert!(board.move_down(&cell).is_none());
    assert!(board.move_in(&cell, Direction::DOWN).is_none());

    assert_eq!(
        board.move_up(&cell),
        Some(Cell {
            value: 5,
            position: (4, 0)
        })
    );
    assert_eq!(board.move_up(&cell), board.move_in(&cell, Direction::UP));

    assert_eq!(
        board.move_right(&cell),
        Some(Cell {
            value: 77,
            position: (5, 1)
        })
    );
    assert_eq!(
        board.move_right(&cell),
        board.move_in(&cell, Direction::RIGHT)
    );
}

#[test]
fn try_moving_from_top_left() {
    let board = Board::new();
    let cell = Cell {
        value: value_at(&board, 0, 0),
        position: (0, 0),
    };
    assert!(!cell.is_end_cell());
    assert_ne!(cell, board.start_cell());

    assert!(board.move_left(&cell).is_none());
    assert!(board.move_in(&cell, Direction::LEFT).is_none());

    assert!(board.move_up(&cell).is_none());
    assert!(board.move_in(&cell, Direction::UP).is_none());

    assert_eq!(
        board.move_right(&cell),
        Some(Cell {
            value: 33,
            position: (0, 1)
        })
    );
    assert_eq!(
        board.move_right(&cell),
        board.move_in(&cell, Direction::RIGHT)
    );

    assert_eq!(
        board.move_down(&cell),
        Some(Cell {
            value: 81,
            position: (1, 0)
        })
    );
    assert_eq!(
        board.move_down(&cell),
        board.move_in(&cell, Direction::DOWN)
    );
}

#[test]
fn try_moving_from_top_right() {
    let board = Board::new();
    let cell = Cell {
        value: value_at(&board, 0, BOARD_WIDTH - 1),
        position: (0, BOARD_WIDTH - 1),
    };
    assert!(cell.is_end_cell());
    assert_ne!(cell, board.start_cell());

    assert!(board.move_up(&cell).is_none());
    assert!(board.move_in(&cell, Direction::UP).is_none());

    assert!(board.move_right(&cell).is_none());
    assert!(board.move_in(&cell, Direction::RIGHT).is_none());

    assert_eq!(
        board.move_down(&cell),
        Some(Cell {
            value: 508,
            position: (1, BOARD_WIDTH - 1)
        })
    );
    assert_eq!(
        board.move_down(&cell),
        board.move_in(&cell, Direction::DOWN)
    );

    assert_eq!(
        board.move_left(&cell),
        Some(Cell {
            value: 492,
            position: (0, BOARD_WIDTH - 2)
        })
    );
    assert_eq!(
        board.move_left(&cell),
        board.move_in(&cell, Direction::LEFT)
    );
}

#[test]
fn try_moving_from_bottom_right() {
    let board = Board::new();
    let cell = Cell {
        value: value_at(&board, BOARD_WIDTH - 1, BOARD_WIDTH - 1),
        position: (BOARD_WIDTH - 1, BOARD_WIDTH - 1),
    };
    assert!(!cell.is_end_cell());
    assert_ne!(cell, board.start_cell());

    assert!(board.move_right(&cell).is_none());
    assert!(board.move_in(&cell, Direction::RIGHT).is_none());

    assert!(board.move_down(&cell).is_none());
    assert!(board.move_in(&cell, Direction::DOWN).is_none());

    assert_eq!(
        board.move_left(&cell),
        Some(Cell {
            value: 337,
            position: (BOARD_WIDTH - 1, BOARD_WIDTH - 2)
        })
    );
    assert_eq!(
        board.move_left(&cell),
        board.move_in(&cell, Direction::LEFT)
    );

    assert_eq!(
        board.move_up(&cell),
        Some(Cell {
            value: 620,
            position: (BOARD_WIDTH - 2, BOARD_WIDTH - 1)
        })
    );
    assert_eq!(board.move_up(&cell), board.move_in(&cell, Direction::UP));
}

#[test]
fn board_compute_sum_of_unvisited_cells_works() {
    let board = Board::new();

    let mut sum_of_all_cells = 0;
    for row in 0..BOARD_WIDTH {
        for col in 0..BOARD_WIDTH {
            sum_of_all_cells += value_at(&board, row, col);
        }
    }

    let mut unique_visited_positions = Vec::new();
    assert_eq!(
        board.compute_sum_of_unvisited_cells(&unique_visited_positions),
        sum_of_all_cells
    );

    let value_top_left_cell = value_at(&board, 0, 0);
    let top_left_cell_position = (0, 0);
    unique_visited_positions.push(top_left_cell_position);
    assert_eq!(
        board.compute_sum_of_unvisited_cells(&unique_visited_positions),
        sum_of_all_cells - value_top_left_cell
    )
}

#[test]
fn sum_of_all_cells_is_the_puzzles_total() {
    let board = Board::new();
    assert_eq!(board.compute_sum_of_unvisited_cells(&Vec::new()), 9767);
}

#[test]
fn position_listed_twice_counts_once() {
    let board = Board::new();
    let once = board.compute_sum_of_unvisited_cells(&vec![(3, 2)]);
    let twice = board.compute_sum_of_unvisited_cells(&vec![(3, 2), (3, 2)]);
    assert_eq!(once, 9767 - 357);
    assert_eq!(once, twice);
}

#[test]
fn every_position_visited_sums_to_zero() {
    let board = Board::new();
    let mut all = Vec::new();
    for row in 0..BOARD_WIDTH {
        for col in 0..BOARD_WIDTH {
            all.push((row, col));
        }
    }
    assert_eq!(board.compute_sum_of_unvisited_cells(&all), 0);
}

#[test]
fn outward_moves_from_edges_leave_the_board() {
    let board = Board::new();
    for i in 0..BOARD_WIDTH {
        let top = board.get_cell_at((0, i)).unwrap();
        assert!(board.move_in(&top, Direction::UP).is_none());
        let bottom = board.get_cell_at((BOARD_WIDTH - 1, i)).unwrap();
        assert!(board.move_in(&bottom, Direction::DOWN).is_none());
        let left = board.get_cell_at((i, 0)).unwrap();
        assert!(board.move_in(&left, Direction::LEFT).is_none());
        let right = board.get_cell_at((i, BOARD_WIDTH - 1)).unwrap();
        assert!(board.move_in(&right, Direction::RIGHT).is_none());
    }
    let inner = board.get_cell_at((3, 2)).unwrap();
    assert_eq!(
        board.move_in(&inner, Direction::DOWN),
        Some(Cell {
            value: -4,
            position: (4, 2)
        })
    );
}

#[test]
fn cells_off_the_board_are_absent() {
    let board = Board::new();
    assert!(board.get_cell_at((BOARD_WIDTH, 0)).is_none());
    assert!(board.get_cell_at((0, BOARD_WIDTH)).is_none());
    assert_eq!(board.get_cell_at((3, 0)).unwrap().get_value(), -7);
    assert_eq!(board.start_cell().get_position(), &(5, 0));
    assert_eq!(board.start_cell().get_value(), 0);
}
