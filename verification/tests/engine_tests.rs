use labyrinth::engine::step;
use labyrinth::grid::{Grid, Status};
use labyrinth::walker::Walker;

// A 2x1 maze whose two cells are each other's only exit: both have exits == 1.
fn two_cell_dead_end() -> Grid {
    let flags = vec![(false, true, false, false), (false, false, false, true)];
    Grid::new(2, 1, flags).unwrap()
}

// A 3x1 corridor open left and right everywhere: entrance on the left border,
// exit on the right border, Target at (2, 0).
fn three_cell_corridor() -> Grid {
    let flags = vec![
        (false, true, false, true),
        (false, true, false, true),
        (false, true, false, true),
    ];
    Grid::new(3, 1, flags).unwrap()
}

// A 3x3 grid fully open in every direction: the center cell is a 4-exit junction.
fn open_three_by_three() -> Grid {
    let flags = vec![(true, true, true, true); 9];
    Grid::new(3, 3, flags).unwrap()
}

#[test]
fn dead_end_at_start_kills_the_walker() {
    // the start cell has exits == 1: the walker dies on the first tick,
    // without moving, and no win ever fires
    let mut g = two_cell_dead_end();
    let walkers = vec![Walker::start()];
    let (next, wins) = step(&mut g, &walkers);
    assert_eq!(next.len(), 0);
    assert_eq!(wins, 0);
    assert_eq!(g.status((0, 0)), Status::Visited);
    assert_eq!(g.status((1, 0)), Status::Target);
    // an empty set is a legal steady state
    let (next2, wins2) = step(&mut g, &next);
    assert_eq!(next2.len(), 0);
    assert_eq!(wins2, 0);
}

#[test]
fn corridor_reaches_target_when_its_cell_is_processed() {
    // the unique path is 3 cells long: the walker advances one cell per tick
    // and the single "goal reached" fires on the tick that processes (2, 0)
    let mut g = three_cell_corridor();
    let mut walkers = vec![Walker::start()];

    let (w1, wins1) = step(&mut g, &walkers);
    assert_eq!(wins1, 0);
    assert_eq!(w1.len(), 1);
    assert_eq!(w1[0].coords, (1, 0));
    assert_eq!(w1[0].path, vec![(0, 0)]);
    walkers = w1;

    let (w2, wins2) = step(&mut g, &walkers);
    assert_eq!(wins2, 0);
    assert_eq!(w2.len(), 1);
    assert_eq!(w2[0].coords, (2, 0));
    assert_eq!(w2[0].path, vec![(0, 0), (1, 0)]);
    walkers = w2;

    let (w3, wins3) = step(&mut g, &walkers);
    assert_eq!(wins3, 1);
    assert_eq!(w3.len(), 0); // right is out of bounds, left is Visited: it dies
    assert_eq!(g.status((2, 0)), Status::Visited); // Target was overwritten
}

#[test]
fn junction_with_four_vacant_neighbors_forks_four() {
    let mut g = open_three_by_three();
    let walkers = vec![Walker { coords: (1, 1), path: vec![] }];
    let (next, wins) = step(&mut g, &walkers);
    assert_eq!(wins, 0);
    // exactly four children, in the priority order up, right, down, left,
    // and zero survivors in place: the parent is gone
    let coords: Vec<(usize, usize)> = next.iter().map(|w| w.coords).collect();
    assert_eq!(coords, vec![(1, 0), (2, 1), (1, 2), (0, 1)]);
    for w in next.iter() {
        assert_eq!(w.path, vec![(1, 1)]);
        assert_ne!(w.coords, (1, 1));
    }
}

#[test]
fn junction_forks_one_child_per_eligible_direction() {
    let mut g = open_three_by_three();
    g.mark_visited((1, 0));
    g.mark_visited((2, 1));
    let walkers = vec![Walker { coords: (1, 1), path: vec![] }];
    let (next, wins) = step(&mut g, &walkers);
    assert_eq!(wins, 0);
    let coords: Vec<(usize, usize)> = next.iter().map(|w| w.coords).collect();
    assert_eq!(coords, vec![(1, 2), (0, 1)]);
}

#[test]
fn junction_with_no_eligible_direction_still_kills_the_parent() {
    // a 1x1 maze: the sole cell claims four exits, but every neighbor is out
    // of bounds, so zero children are forked and the parent dies; the sole
    // cell is also the Target, so the tick that processes it fires the win
    let flags = vec![(true, true, true, true)];
    let mut g = Grid::new(1, 1, flags).unwrap();
    let walkers = vec![Walker::start()];
    let (next, wins) = step(&mut g, &walkers);
    assert_eq!(next.len(), 0);
    assert_eq!(wins, 1);
}

#[test]
fn blocked_corridor_walker_dies() {
    let mut g = three_cell_corridor();
    g.mark_visited((1, 0));
    let walkers = vec![Walker::start()];
    // (0, 0) has two exits, but left leaves the grid and right is Visited
    let (next, wins) = step(&mut g, &walkers);
    assert_eq!(next.len(), 0);
    assert_eq!(wins, 0);
}

#[test]
fn visited_cells_stay_visited_and_are_never_reentered() {
    let mut g = open_three_by_three();
    let mut walkers = vec![Walker::start()];
    let mut visited: Vec<(usize, usize)> = vec![];
    for _ in 0..6 {
        for y in 0..3usize {
            for x in 0..3usize {
                if g.status((x, y)) == Status::Visited && !visited.contains(&(x, y)) {
                    visited.push((x, y));
                }
            }
        }
        let (next, _wins) = step(&mut g, &walkers);
        // no cell reverts from Visited
        for &c in visited.iter() {
            assert_eq!(g.status(c), Status::Visited);
        }
        // no walker is ever routed onto a cell already Visited before the tick
        for w in next.iter() {
            assert!(!visited.contains(&w.coords));
        }
        walkers = next;
    }
}

#[test]
fn two_walkers_may_pick_the_same_destination() {
    // a benign race: both walkers choose the still-unvisited (1, 0) within
    // one tick and both stand there on the next
    let flags = vec![
        (false, true, false, true),
        (false, true, false, true),
        (false, false, true, true),
        (false, true, false, true),
    ];
    let mut g = Grid::new(4, 1, flags).unwrap();
    let walkers = vec![
        Walker { coords: (0, 0), path: vec![] },
        Walker { coords: (2, 0), path: vec![] },
    ];
    let (next, wins) = step(&mut g, &walkers);
    assert_eq!(wins, 0);
    let coords: Vec<(usize, usize)> = next.iter().map(|w| w.coords).collect();
    assert_eq!(coords, vec![(1, 0), (1, 0)]);
}

#[test]
fn removed_walkers_never_reappear() {
    let mut g = two_cell_dead_end();
    let mut walkers = vec![Walker::start()];
    let (next, _) = step(&mut g, &walkers);
    assert!(next.is_empty());
    walkers = next;
    for _ in 0..4 {
        let (next, wins) = step(&mut g, &walkers);
        assert!(next.is_empty());
        assert_eq!(wins, 0);
        walkers = next;
    }
}

#[test]
fn walker_fork_copies_the_whole_trail() {
    let w = Walker { coords: (2, 2), path: vec![(0, 0), (1, 1)] };
    let child = w.advanced((2, 3));
    assert_eq!(child.coords, (2, 3));
    assert_eq!(child.path, vec![(0, 0), (1, 1), (2, 2)]);
    // the parent is untouched
    assert_eq!(w.coords, (2, 2));
    assert_eq!(w.path, vec![(0, 0), (1, 1)]);
    let copy = w.duplicate();
    assert_eq!(copy.coords, w.coords);
    assert_eq!(copy.path, w.path);
}
