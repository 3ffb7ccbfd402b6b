use labyrinth::grid::{Cell, Grid, MazeError, Status};

fn cell(up: bool, right: bool, down: bool, left: bool) -> Cell {
    Cell { to_upper: up, to_right: right, to_down: down, to_left: left, status: Status::Unvisited }
}

#[test]
fn exits_counts_flags() {
    assert_eq!(cell(false, false, false, false).exits(), 0);
    assert_eq!(cell(true, false, false, false).exits(), 1);
    assert_eq!(cell(false, true, false, true).exits(), 2);
    assert_eq!(cell(true, true, true, false).exits(), 3);
    assert_eq!(cell(true, true, true, true).exits(), 4);
}

#[test]
fn new_rejects_zero_exit_cell() {
    // the second cell has no exit at all: construction must fail
    let flags = vec![(false, true, false, false), (false, false, false, false)];
    let r = Grid::new(2, 1, flags);
    assert_eq!(r.err(), Some(MazeError::NoExit { x: 1, y: 0 }));
}

#[test]
fn new_rejects_empty_dimensions() {
    assert_eq!(Grid::new(0, 5, vec![]).err(), Some(MazeError::EmptyGrid));
    assert_eq!(Grid::new(5, 0, vec![]).err(), Some(MazeError::EmptyGrid));
}

#[test]
fn new_rejects_wrong_cell_count() {
    let flags = vec![(true, false, false, false)];
    assert_eq!(Grid::new(2, 1, flags).err(), Some(MazeError::WrongCellCount));
}

#[test]
fn new_marks_last_cell_target_and_exits_in_range() {
    let flags = vec![
        (false, true, true, false),
        (false, false, true, true),
        (true, true, false, false),
        (true, false, false, true),
    ];
    let g = Grid::new(2, 2, flags).unwrap();
    assert_eq!(g.width(), 2);
    assert_eq!(g.height(), 2);
    for y in 0..2usize {
        for x in 0..2usize {
            let c = g.cell((x, y));
            let e = c.exits();
            assert!((1..=4).contains(&e));
            let expected = if (x, y) == (1, 1) { Status::Target } else { Status::Unvisited };
            assert_eq!(c.status, expected);
        }
    }
}

#[test]
fn mark_visited_is_idempotent_and_blocks_vacancy() {
    let flags = vec![(false, true, false, false), (false, false, false, true)];
    let mut g = Grid::new(2, 1, flags).unwrap();
    assert!(g.is_vacant((0, 0)));
    assert!(g.is_vacant((1, 0))); // Target counts as vacant
    assert!(!g.is_vacant((2, 0))); // out of bounds
    g.mark_visited((1, 0)); // overwrites Target
    assert_eq!(g.status((1, 0)), Status::Visited);
    assert!(!g.is_vacant((1, 0)));
    g.mark_visited((1, 0)); // marking again is legal and changes nothing
    assert_eq!(g.status((1, 0)), Status::Visited);
    // the other cell is untouched
    assert_eq!(g.status((0, 0)), Status::Unvisited);
    assert!(g.cell((0, 0)).to_right);
}
