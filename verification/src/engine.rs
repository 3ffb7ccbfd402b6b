use vstd::prelude::*;
use crate::grid::{Dir, Grid, GridV};
use crate::walker::{Walker, WalkerV};
use crate::grid::Status;

verus! {

/// Whether a move in direction `d` from `c` stays inside the coordinate
/// space: moves toward row 0 or column 0 must not underflow.
pub open spec fn can_move(c: (usize, usize), d: Dir) -> bool {
    match d {
        Dir::Up => c.1 > 0,
        Dir::Right => true,
        Dir::Down => true,
        Dir::Left => c.0 > 0,
    }
}

/// Where a move in direction `d` from `c` lands (meaningful only when
/// `can_move(c, d)` holds and the destination is checked for bounds).
pub open spec fn move_dest(c: (usize, usize), d: Dir) -> (usize, usize) {
    match d {
        Dir::Up => (c.0, (c.1 - 1) as usize),
        Dir::Right => ((c.0 + 1) as usize, c.1),
        Dir::Down => (c.0, (c.1 + 1) as usize),
        Dir::Left => ((c.0 - 1) as usize, c.1),
    }
}

/// Direction `d` is eligible from `c` in grid `g`: the cell at `c` is open
/// toward `d`, the move does not leave the coordinate space, and the
/// destination cell is vacant (in bounds and not Visited).
pub open spec fn eligible(g: GridV, c: (usize, usize), d: Dir) -> bool {
    g.cell(c).open_toward(d) && can_move(c, d) && g.is_vacant(move_dest(c, d))
}

/// The first eligible direction from `c`, in the fixed priority order
/// up, right, down, left; None when every direction is blocked.
pub open spec fn first_eligible(g: GridV, c: (usize, usize)) -> Option<Dir> {
    if eligible(g, c, Dir::Up) {
        Some(Dir::Up)
    } else if eligible(g, c, Dir::Right) {
        Some(Dir::Right)
    } else if eligible(g, c, Dir::Down) {
        Some(Dir::Down)
    } else if eligible(g, c, Dir::Left) {
        Some(Dir::Left)
    } else {
        None
    }
}

/// How many of the four directions are eligible from `c` in `g`.
pub open spec fn eligible_count(g: GridV, c: (usize, usize)) -> int {
    (if eligible(g, c, Dir::Up) {
        1int
    } else {
        0int
    }) + (if eligible(g, c, Dir::Right) {
        1int
    } else {
        0int
    }) + (if eligible(g, c, Dir::Down) {
        1int
    } else {
        0int
    }) + (if eligible(g, c, Dir::Left) {
        1int
    } else {
        0int
    })
}

/// The child forked in direction `d`, as a sequence: a singleton when `d` is
/// eligible, empty otherwise. `w1` is the parent with its trail already
/// extended by the parent's current coordinate.
pub open spec fn fork_at(g: GridV, w1: WalkerV, d: Dir) -> Seq<WalkerV> {
    if eligible(g, w1.coords, d) {
        seq![WalkerV { coords: move_dest(w1.coords, d), path: w1.path }]
    } else {
        seq![]
    }
}

/// Everything that processing one walker produces: the grid after the
/// walker's cell is marked Visited, the walker moved in place (empty when it
/// dies or forks), the children it forked, and whether it stood on the Target.
#[verifier::ext_equal]
pub ghost struct WalkerStepV {
    pub grid: GridV,
    pub moved: Seq<WalkerV>,
    pub forked: Seq<WalkerV>,
    pub wins: int,
}

/// One walker's processing within a tick, on grid `g`:
/// 1. the trail is extended by the current coordinate;
/// 2. standing on a Target cell counts one "goal reached" notification;
/// 3. the current cell is marked Visited, unconditionally;
/// 4. by the cell's exit count: 1 — the walker dies; 2 — it moves to the
///    first eligible direction, or dies when all are blocked; 3 or 4 — it
///    forks one child per eligible direction and always dies itself.
/// Eligibility is judged on the grid with the current cell already marked.
pub open spec fn walker_step(g: GridV, w: WalkerV) -> WalkerStepV {
    let cell = g.cell(w.coords);
    let wins: int = if cell.status == Status::Target {
        1int
    } else {
        0int
    };
    let g1 = g.marked(w.coords);
    let w1 = WalkerV { coords: w.coords, path: w.path.push(w.coords) };
    if cell.spec_exits() == 1 {
        WalkerStepV { grid: g1, moved: seq![], forked: seq![], wins }
    } else if cell.spec_exits() == 2 {
        match first_eligible(g1, w.coords) {
            Some(d) => WalkerStepV {
                grid: g1,
                moved: seq![WalkerV { coords: move_dest(w.coords, d), path: w1.path }],
                forked: seq![],
                wins,
            },
            None => WalkerStepV { grid: g1, moved: seq![], forked: seq![], wins },
        }
    } else {
        WalkerStepV {
            grid: g1,
            moved: seq![],
            forked: fork_at(g1, w1, Dir::Up) + fork_at(g1, w1, Dir::Right) + fork_at(
                g1,
                w1,
                Dir::Down,
            ) + fork_at(g1, w1, Dir::Left),
            wins,
        }
    }
}

/// Everything one whole tick produces: the grid after every walker's cell is
/// marked, the walkers that moved in place, all forked children, and the
/// number of "goal reached" notifications.
#[verifier::ext_equal]
pub ghost struct TickV {
    pub grid: GridV,
    pub moved: Seq<WalkerV>,
    pub forked: Seq<WalkerV>,
    pub wins: int,
}

/// One tick over the walker sequence `ws` on grid `g`: walkers are processed
/// in order, each on the grid the previous ones left behind; movers keep
/// their relative order, and so do forked children.
pub open spec fn tick(g: GridV, ws: Seq<WalkerV>) -> TickV
    decreases ws.len(),
{
    if ws.len() == 0 {
        TickV { grid: g, moved: seq![], forked: seq![], wins: 0 }
    } else {
        let rest = tick(g, ws.drop_last());
        let one = walker_step(rest.grid, ws.last());
        TickV {
            grid: one.grid,
            moved: rest.moved + one.moved,
            forked: rest.forked + one.forked,
            wins: rest.wins + one.wins,
        }
    }
}

/// The walker set of the next tick: the walkers that moved in place, in
/// processing order, followed by every forked child, in forking order. The
/// two classes are merged only after the whole pass, so a child forked this
/// tick is never processed before the next tick.
pub open spec fn next_set(g: GridV, ws: Seq<WalkerV>) -> Seq<WalkerV> {
    tick(g, ws).moved + tick(g, ws).forked
}

/// The views of a sequence of walkers.
pub open spec fn views(ws: Seq<Walker>) -> Seq<WalkerV> {
    ws.map_values(|w: Walker| w@)
}

pub proof fn lemma_views_push(ws: Seq<Walker>, w: Walker)
    ensures
        views(ws.push(w)) == views(ws).push(w@),
{
    assert(views(ws.push(w)) =~= views(ws).push(w@));
}

pub proof fn lemma_views_add(a: Seq<Walker>, b: Seq<Walker>)
    ensures
        views(a + b) == views(a) + views(b),
{
    assert(views(a + b) =~= views(a) + views(b));
}

/// Coordinate `b` is one move from `a` through an open boundary of `a`'s cell
/// in grid `g`. Boundary flags never change, so this holds on the starting
/// grid exactly when it holds on any grid a tick leaves behind.
pub open spec fn open_step(g: GridV, a: (usize, usize), b: (usize, usize)) -> bool {
    ||| (can_move(a, Dir::Up) && b == move_dest(a, Dir::Up) && g.cell(a).open_toward(Dir::Up))
    ||| (b == move_dest(a, Dir::Right) && g.cell(a).open_toward(Dir::Right))
    ||| (b == move_dest(a, Dir::Down) && g.cell(a).open_toward(Dir::Down))
    ||| (can_move(a, Dir::Left) && b == move_dest(a, Dir::Left) && g.cell(a).open_toward(
        Dir::Left,
    ))
}

/// Walker `c` is the tick-time offspring of walker `p`: its trail is `p`'s
/// trail extended by `p`'s coordinate, and it stands one open-boundary move
/// away from `p`.
pub open spec fn offspring(g: GridV, p: WalkerV, c: WalkerV) -> bool {
    c.path == p.path.push(p.coords) && open_step(g, p.coords, c.coords)
}

/// `path` followed by `last` is a legal route through the maze: every cell is
/// in bounds and each consecutive move passes an open boundary.
pub open spec fn route_ok(g: GridV, path: Seq<(usize, usize)>, last: (usize, usize)) -> bool {
    let full = path.push(last);
    &&& forall|i: int| 0 <= i < full.len() ==> g.in_bounds(#[trigger] full[i])
    &&& forall|i: int| 0 <= i < full.len() - 1 ==> open_step(g, #[trigger] full[i], full[i + 1])
}

/// Two grids lie on the same board: equal dimensions and, cell for cell, the
/// same boundary flags — only statuses may differ.
pub open spec fn same_board(g: GridV, g2: GridV) -> bool {
    &&& g2.width == g.width
    &&& g2.height == g.height
    &&& g2.cells.len() == g.cells.len()
    &&& forall|i: int|
        0 <= i < g.cells.len() ==> {
            let c2 = #[trigger] g2.cells[i];
            let c1 = g.cells[i];
            &&& c2.to_upper == c1.to_upper
            &&& c2.to_right == c1.to_right
            &&& c2.to_down == c1.to_down
            &&& c2.to_left == c1.to_left
        }
}

/// An open step on one board is an open step on any grid of the same board.
pub proof fn lemma_open_step_same_board(g: GridV, g2: GridV, a: (usize, usize), b: (
    usize,
    usize,
))
    requires
        g.wf(),
        same_board(g, g2),
        g.in_bounds(a),
        open_step(g2, a, b),
    ensures
        open_step(g, a, b),
{
    crate::grid::lemma_idx_bound(g, a);
    let i = g.idx(a);
    assert(g2.cells[i] == g2.cell(a));
    assert(g.cells[i] == g.cell(a));
}

/// A walker standing on a dead-end cell (one exit) dies: it contributes no
/// mover and no fork to the next tick's set.
pub proof fn lemma_dead_end_removed(g: GridV, w: WalkerV)
    requires
        g.cell(w.coords).spec_exits() == 1,
    ensures
        walker_step(g, w).moved.len() == 0,
        walker_step(g, w).forked.len() == 0,
{
}

/// A corridor walker (two exits) dies when every direction is a wall, out of
/// bounds, or not vacant: it contributes nothing to the next tick's set.
pub proof fn lemma_blocked_removed(g: GridV, w: WalkerV)
    requires
        g.cell(w.coords).spec_exits() == 2,
        first_eligible(g.marked(w.coords), w.coords) is None,
    ensures
        walker_step(g, w).moved.len() == 0,
        walker_step(g, w).forked.len() == 0,
{
}

/// A junction walker (three or four exits) forks exactly one child per
/// eligible direction — zero children when all four are blocked — and the
/// parent always dies: it never moves in place, and no child stands at the
/// parent's own coordinate.
pub proof fn lemma_junction_forks(g: GridV, w: WalkerV)
    requires
        g.wf(),
        g.in_bounds(w.coords),
        g.cell(w.coords).spec_exits() == 3 || g.cell(w.coords).spec_exits() == 4,
    ensures
        walker_step(g, w).moved.len() == 0,
        walker_step(g, w).forked.len() == eligible_count(g.marked(w.coords), w.coords),
        forall|k: int|
            0 <= k < walker_step(g, w).forked.len() ==> (#[trigger] walker_step(
                g,
                w,
            ).forked[k]).coords != w.coords && walker_step(g, w).forked[k].path == w.path.push(
                w.coords,
            ),
{
    let g1 = g.marked(w.coords);
    let w1 = WalkerV { coords: w.coords, path: w.path.push(w.coords) };
    let fu = fork_at(g1, w1, Dir::Up);
    let fr = fork_at(g1, w1, Dir::Right);
    let fd = fork_at(g1, w1, Dir::Down);
    let fl = fork_at(g1, w1, Dir::Left);
    assert forall|k: int|
        0 <= k < walker_step(g, w).forked.len() implies (#[trigger] walker_step(
        g,
        w,
    ).forked[k]).coords != w.coords && walker_step(g, w).forked[k].path == w.path.push(
        w.coords,
    ) by {
        let f = walker_step(g, w).forked;
        assert(f == fu + fr + fd + fl);
        let e = f[k];
        assert(e == fu[0] || e == fr[0] || e == fd[0] || e == fl[0]);
    }
}

/// One walker's processing keeps the grid's dimensions and every boundary
/// flag; a cell's status either stays or becomes Visited, and a Visited cell
/// stays Visited.
pub proof fn lemma_walker_step_grid(g: GridV, w: WalkerV)
    requires
        g.wf(),
        g.in_bounds(w.coords),
    ensures
        walker_step(g, w).grid == g.marked(w.coords),
        walker_step(g, w).grid.wf(),
        same_board(g, walker_step(g, w).grid),
        walker_step(g, w).grid.width == g.width,
        walker_step(g, w).grid.height == g.height,
        walker_step(g, w).grid.cells.len() == g.cells.len(),
        forall|i: int|
            0 <= i < g.cells.len() ==> {
                let c2 = #[trigger] walker_step(g, w).grid.cells[i];
                let c1 = g.cells[i];
                &&& c2.to_upper == c1.to_upper
                &&& c2.to_right == c1.to_right
                &&& c2.to_down == c1.to_down
                &&& c2.to_left == c1.to_left
                &&& (c2.status == c1.status || c2.status == Status::Visited)
                &&& (c1.status == Status::Visited ==> c2.status == Status::Visited)
            },
{
    crate::grid::lemma_idx_bound(g, w.coords);
    let g1 = g.marked(w.coords);
    assert forall|i: int| 0 <= i < g.cells.len() implies 1 <= (
    #[trigger] g1.cells[i]).spec_exits() <= 4 by {
        assert(g1.cells[i].spec_exits() == g.cells[i].spec_exits());
    }
}

/// Over a whole tick the grid keeps its dimensions and boundary flags; each
/// cell's status either stays or becomes Visited, and once a cell is Visited
/// it never reverts.
pub proof fn lemma_tick_grid(g: GridV, ws: Seq<WalkerV>)
    requires
        g.wf(),
        forall|j: int| 0 <= j < ws.len() ==> g.in_bounds((#[trigger] ws[j]).coords),
    ensures
        tick(g, ws).grid.wf(),
        same_board(g, tick(g, ws).grid),
        tick(g, ws).grid.width == g.width,
        tick(g, ws).grid.height == g.height,
        tick(g, ws).grid.cells.len() == g.cells.len(),
        forall|i: int|
            0 <= i < g.cells.len() ==> {
                let c2 = #[trigger] tick(g, ws).grid.cells[i];
                let c1 = g.cells[i];
                &&& c2.to_upper == c1.to_upper
                &&& c2.to_right == c1.to_right
                &&& c2.to_down == c1.to_down
                &&& c2.to_left == c1.to_left
                &&& (c2.status == c1.status || c2.status == Status::Visited)
                &&& (c1.status == Status::Visited ==> c2.status == Status::Visited)
            },
    decreases ws.len(),
{
    if ws.len() > 0 {
        lemma_tick_grid(g, ws.drop_last());
        let rg = tick(g, ws.drop_last()).grid;
        assert(rg.in_bounds(ws.last().coords));
        lemma_walker_step_grid(rg, ws.last());
    }
}

/// Every child a walker leaves behind — mover or fork — is its offspring and
/// stands on a cell that was vacant when it was chosen (judged on the grid
/// with the walker's own cell already marked).
pub proof fn lemma_walker_step_children(g: GridV, w: WalkerV)
    requires
        g.wf(),
        g.in_bounds(w.coords),
    ensures
        forall|k: int|
            0 <= k < walker_step(g, w).moved.len() ==> offspring(
                g,
                w,
                #[trigger] walker_step(g, w).moved[k],
            ) && walker_step(g, w).grid.is_vacant(walker_step(g, w).moved[k].coords),
        forall|k: int|
            0 <= k < walker_step(g, w).forked.len() ==> offspring(
                g,
                w,
                #[trigger] walker_step(g, w).forked[k],
            ) && walker_step(g, w).grid.is_vacant(walker_step(g, w).forked[k].coords),
{
    let g1 = g.marked(w.coords);
    crate::grid::lemma_idx_bound(g, w.coords);
    assert(g1.cell(w.coords).to_upper == g.cell(w.coords).to_upper);
    assert(g1.cell(w.coords).to_right == g.cell(w.coords).to_right);
    assert(g1.cell(w.coords).to_down == g.cell(w.coords).to_down);
    assert(g1.cell(w.coords).to_left == g.cell(w.coords).to_left);
    let w1 = WalkerV { coords: w.coords, path: w.path.push(w.coords) };
    let fu = fork_at(g1, w1, Dir::Up);
    let fr = fork_at(g1, w1, Dir::Right);
    let fd = fork_at(g1, w1, Dir::Down);
    let fl = fork_at(g1, w1, Dir::Left);
    assert forall|k: int|
        0 <= k < walker_step(g, w).forked.len() implies offspring(
        g,
        w,
        #[trigger] walker_step(g, w).forked[k],
    ) && walker_step(g, w).grid.is_vacant(walker_step(g, w).forked[k].coords) by {
        let f = walker_step(g, w).forked;
        if f.len() > 0 {
            assert(f == fu + fr + fd + fl);
            let e = f[k];
            assert(e == fu[0] || e == fr[0] || e == fd[0] || e == fl[0]);
        }
    }
}

/// Vacancy on the grid a tick leaves behind carries back to the grid it
/// started from: statuses only ever move toward Visited.
pub proof fn lemma_vacant_carries_back(g: GridV, ws: Seq<WalkerV>, c: (usize, usize))
    requires
        g.wf(),
        forall|j: int| 0 <= j < ws.len() ==> g.in_bounds((#[trigger] ws[j]).coords),
        tick(g, ws).grid.is_vacant(c),
    ensures
        g.is_vacant(c),
{
    lemma_tick_grid(g, ws);
    assert(g.in_bounds(c));
    crate::grid::lemma_idx_bound(g, c);
    let i = g.idx(c);
    assert(tick(g, ws).grid.cells[i] == tick(g, ws).grid.cell(c));
    assert(g.cells[i].status == Status::Visited ==> tick(g, ws).grid.cells[i].status
        == Status::Visited);
}

/// Every walker of the next tick's set is the offspring of some walker of the
/// current set, and stands on a cell that was vacant — in bounds and not
/// Visited — before the tick began: a Visited cell is never entered again.
pub proof fn lemma_next_set_children(g: GridV, ws: Seq<WalkerV>)
    requires
        g.wf(),
        forall|j: int| 0 <= j < ws.len() ==> g.in_bounds((#[trigger] ws[j]).coords),
    ensures
        forall|k: int|
            0 <= k < next_set(g, ws).len() ==> (exists|j: int|
                0 <= j < ws.len() && offspring(g, ws[j], #[trigger] next_set(g, ws)[k]))
                && g.is_vacant(next_set(g, ws)[k].coords),
    decreases ws.len(),
{
    if ws.len() > 0 {
        let prefix = ws.drop_last();
        let last = ws.last();
        lemma_next_set_children(g, prefix);
        lemma_tick_grid(g, prefix);
        let rest = tick(g, prefix);
        assert(rest.grid.in_bounds(last.coords));
        lemma_walker_step_children(rest.grid, last);
        lemma_walker_step_grid(rest.grid, last);
        lemma_tick_grid(g, ws);
        let one = walker_step(rest.grid, last);
        assert(next_set(g, prefix) == rest.moved + rest.forked);
        assert(next_set(g, ws) == (rest.moved + one.moved) + (rest.forked + one.forked));
        assert forall|k: int|
            0 <= k < next_set(g, ws).len() implies (exists|j: int|
            0 <= j < ws.len() && offspring(g, ws[j], #[trigger] next_set(g, ws)[k]))
            && g.is_vacant(next_set(g, ws)[k].coords) by {
            let e = next_set(g, ws)[k];
            let rm = rest.moved.len() as int;
            let om = one.moved.len() as int;
            let rf = rest.forked.len() as int;
            if k < rm {
                assert(e == next_set(g, prefix)[k]);
            } else if k < rm + om {
                assert(e == one.moved[k - rm]);
                assert(offspring(rest.grid, last, e));
                lemma_open_step_same_board(g, rest.grid, last.coords, e.coords);
                assert(0 <= ws.len() - 1 < ws.len() && offspring(g, ws[ws.len() - 1], e));
                // vacant on the marked grid implies vacant on g: statuses only grow
                assert(one.grid.is_vacant(e.coords));
                assert(tick(g, ws).grid == one.grid);
                lemma_vacant_carries_back(g, ws, e.coords);
            } else if k < rm + om + rf {
                assert(e == rest.forked[k - rm - om]);
                assert(e == next_set(g, prefix)[rm + (k - rm - om)]);
            } else {
                assert(e == one.forked[k - rm - om - rf]);
                assert(offspring(rest.grid, last, e));
                lemma_open_step_same_board(g, rest.grid, last.coords, e.coords);
                assert(0 <= ws.len() - 1 < ws.len() && offspring(g, ws[ws.len() - 1], e));
                assert(one.grid.is_vacant(e.coords));
                assert(tick(g, ws).grid == one.grid);
                lemma_vacant_carries_back(g, ws, e.coords);
            }
        }
    }
}

/// The wavefront is synchronous: when every active walker carries a trail of
/// length n, every walker of the next tick's set carries one of length n + 1 —
/// each surviving line of exploration advances by exactly one cell per tick,
/// which is why the tick on which the Target is first processed equals the
/// number of cells on a shortest start-to-Target path.
pub proof fn lemma_wavefront_depth(g: GridV, ws: Seq<WalkerV>, n: nat)
    requires
        g.wf(),
        forall|j: int| 0 <= j < ws.len() ==> g.in_bounds((#[trigger] ws[j]).coords),
        forall|j: int| 0 <= j < ws.len() ==> (#[trigger] ws[j]).path.len() == n,
    ensures
        forall|k: int|
            0 <= k < next_set(g, ws).len() ==> (#[trigger] next_set(g, ws)[k]).path.len() == n
                + 1,
{
    lemma_next_set_children(g, ws);
    assert forall|k: int|
        0 <= k < next_set(g, ws).len() implies (#[trigger] next_set(g, ws)[k]).path.len() == n
        + 1 by {
        let j = choose|j: int| 0 <= j < ws.len() && offspring(g, ws[j], next_set(g, ws)[k]);
        assert(next_set(g, ws)[k].path == ws[j].path.push(ws[j].coords));
    }
}

/// Extending a legal route by one offspring step keeps it legal, keeps its
/// first cell, and lengthens it by exactly one.
pub proof fn lemma_route_extend(g: GridV, p: WalkerV, c: WalkerV)
    requires
        route_ok(g, p.path, p.coords),
        offspring(g, p, c),
        g.in_bounds(c.coords),
    ensures
        route_ok(g, c.path, c.coords),
        c.path.push(c.coords)[0] == p.path.push(p.coords)[0],
        c.path.push(c.coords).len() == p.path.push(p.coords).len() + 1,
{
    let fp = p.path.push(p.coords);
    let fc = c.path.push(c.coords);
    assert(fc =~= fp.push(c.coords));
    assert forall|i: int| 0 <= i < fc.len() implies g.in_bounds(#[trigger] fc[i]) by {
        if i < fp.len() {
            assert(fc[i] == fp[i]);
        }
    }
    assert forall|i: int| 0 <= i < fc.len() - 1 implies open_step(
        g,
        #[trigger] fc[i],
        fc[i + 1],
    ) by {
        if i < fp.len() - 1 {
            assert(fc[i] == fp[i] && fc[i + 1] == fp[i + 1]);
        } else {
            assert(fc[i] == fp[fp.len() - 1] && fp[fp.len() - 1] == p.coords);
            assert(fc[i + 1] == c.coords);
        }
    }
}

/// A legal route on one grid is legal on any grid of the same board.
pub proof fn lemma_route_same_board(g: GridV, g2: GridV, path: Seq<(usize, usize)>, last: (
    usize,
    usize,
))
    requires
        g.wf(),
        same_board(g, g2),
        route_ok(g2, path, last),
    ensures
        route_ok(g, path, last),
{
    let full = path.push(last);
    assert forall|i: int| 0 <= i < full.len() implies g.in_bounds(#[trigger] full[i]) by {
        assert(g2.in_bounds(full[i]));
    }
    assert forall|i: int| 0 <= i < full.len() - 1 implies open_step(
        g,
        #[trigger] full[i],
        full[i + 1],
    ) by {
        assert(open_step(g2, full[i], full[i + 1]));
        lemma_open_step_same_board(g, g2, full[i], full[i + 1]);
    }
}

/// When every active walker's trail is a legal route ending at its position,
/// the same holds of every walker of the next tick's set, with the same first
/// cell: routes only ever grow, they are never invented.
pub proof fn lemma_next_set_routes(g: GridV, ws: Seq<WalkerV>, o: (usize, usize))
    requires
        g.wf(),
        forall|j: int| 0 <= j < ws.len() ==> g.in_bounds((#[trigger] ws[j]).coords),
        forall|j: int|
            0 <= j < ws.len() ==> route_ok(g, (#[trigger] ws[j]).path, ws[j].coords),
        forall|j: int|
            0 <= j < ws.len() ==> (#[trigger] ws[j]).path.push(ws[j].coords)[0] == o,
    ensures
        forall|k: int|
            0 <= k < next_set(g, ws).len() ==> route_ok(
                g,
                (#[trigger] next_set(g, ws)[k]).path,
                next_set(g, ws)[k].coords,
            ) && next_set(g, ws)[k].path.push(next_set(g, ws)[k].coords)[0] == o,
{
    lemma_next_set_children(g, ws);
    assert forall|k: int| 0 <= k < next_set(g, ws).len() implies route_ok(
        g,
        (#[trigger] next_set(g, ws)[k]).path,
        next_set(g, ws)[k].coords,
    ) && next_set(g, ws)[k].path.push(next_set(g, ws)[k].coords)[0] == o by {
        let e = next_set(g, ws)[k];
        let j = choose|j: int| 0 <= j < ws.len() && offspring(g, ws[j], next_set(g, ws)[k]);
        assert(g.is_vacant(e.coords));
        lemma_route_extend(g, ws[j], e);
    }
}

/// Every walker active after any number of ticks traces a legal route through
/// the maze that starts at the common entrance `o` and ends at the walker's
/// current position.
pub proof fn lemma_run_routes(g: GridV, ws: Seq<WalkerV>, o: (usize, usize), n: nat)
    requires
        g.wf(),
        forall|j: int| 0 <= j < ws.len() ==> g.in_bounds((#[trigger] ws[j]).coords),
        forall|j: int| 0 <= j < ws.len() ==> (#[trigger] ws[j]).path.len() == 0,
        forall|j: int| 0 <= j < ws.len() ==> (#[trigger] ws[j]).coords == o,
    ensures
        forall|k: int|
            0 <= k < run(g, ws, n).1.len() ==> route_ok(
                g,
                (#[trigger] run(g, ws, n).1[k]).path,
                run(g, ws, n).1[k].coords,
            ) && run(g, ws, n).1[k].path.push(run(g, ws, n).1[k].coords)[0] == o,
    decreases n,
{
    if n == 0 {
        assert forall|k: int| 0 <= k < run(g, ws, n).1.len() implies route_ok(
            g,
            (#[trigger] run(g, ws, n).1[k]).path,
            run(g, ws, n).1[k].coords,
        ) && run(g, ws, n).1[k].path.push(run(g, ws, n).1[k].coords)[0] == o by {
            let w = run(g, ws, n).1[k];
            assert(w == ws[k]);
            let full = w.path.push(w.coords);
            assert(full.len() == 1);
            assert(full[0] == w.coords);
        }
    } else {
        let m = (n - 1) as nat;
        lemma_run_routes(g, ws, o, m);
        lemma_run_wavefront(g, ws, m);
        let prev = run(g, ws, m);
        // carry the routes onto the board as the previous tick left it
        assert forall|j: int| 0 <= j < prev.1.len() implies route_ok(
            prev.0,
            (#[trigger] prev.1[j]).path,
            prev.1[j].coords,
        ) by {
            assert(same_board(prev.0, g));
            lemma_route_same_board(prev.0, g, prev.1[j].path, prev.1[j].coords);
        }
        lemma_next_set_routes(prev.0, prev.1, o);
        lemma_tick_grid(prev.0, prev.1);
        assert forall|k: int| 0 <= k < run(g, ws, n).1.len() implies route_ok(
            g,
            (#[trigger] run(g, ws, n).1[k]).path,
            run(g, ws, n).1[k].coords,
        ) && run(g, ws, n).1[k].path.push(run(g, ws, n).1[k].coords)[0] == o by {
            assert(run(g, ws, n).1 == next_set(prev.0, prev.1));
            assert(route_ok(prev.0, run(g, ws, n).1[k].path, run(g, ws, n).1[k].coords));
            lemma_route_same_board(g, prev.0, run(g, ws, n).1[k].path, run(g, ws, n).1[k].coords);
        }
    }
}

/// No walker of the current set carries over into the next set as the same
/// agent: when every active walker carries a trail of length n, every walker
/// of the next set carries a strictly longer one. In particular a walker
/// removed this tick — dead end, blocked, or a forked parent — never appears
/// in the next tick's set.
pub proof fn lemma_removed_walker_gone(g: GridV, ws: Seq<WalkerV>, n: nat)
    requires
        g.wf(),
        forall|j: int| 0 <= j < ws.len() ==> g.in_bounds((#[trigger] ws[j]).coords),
        forall|j: int| 0 <= j < ws.len() ==> (#[trigger] ws[j]).path.len() == n,
    ensures
        forall|k: int, j: int|
            #![trigger next_set(g, ws)[k], ws[j]]
            0 <= k < next_set(g, ws).len() && 0 <= j < ws.len() ==> next_set(g, ws)[k] != ws[j],
{
    lemma_wavefront_depth(g, ws, n);
    assert forall|k: int, j: int|
        #![trigger next_set(g, ws)[k], ws[j]]
        0 <= k < next_set(g, ws).len() && 0 <= j < ws.len() implies next_set(g, ws)[k]
        != ws[j] by {
        assert(next_set(g, ws)[k].path.len() == n + 1);
        assert(ws[j].path.len() == n);
    }
}

/// The simulation state after n whole ticks: the grid and the active walker
/// set, starting from grid `g` and walker set `ws`.
pub open spec fn run(g: GridV, ws: Seq<WalkerV>, n: nat) -> (GridV, Seq<WalkerV>)
    decreases n,
{
    if n == 0 {
        (g, ws)
    } else {
        let prev = run(g, ws, (n - 1) as nat);
        (tick(prev.0, prev.1).grid, next_set(prev.0, prev.1))
    }
}

/// Invariants carried across whole ticks, starting from fresh walkers (empty
/// trails): the grid stays well formed with its dimensions, every active
/// walker stays in bounds, and after n ticks every active walker carries a
/// trail of exactly n coordinates — the wavefront advances one cell per tick,
/// so a walker standing on the Target after n ticks has occupied exactly n
/// cells on its way there.
pub proof fn lemma_run_wavefront(g: GridV, ws: Seq<WalkerV>, n: nat)
    requires
        g.wf(),
        forall|j: int| 0 <= j < ws.len() ==> g.in_bounds((#[trigger] ws[j]).coords),
        forall|j: int| 0 <= j < ws.len() ==> (#[trigger] ws[j]).path.len() == 0,
    ensures
        run(g, ws, n).0.wf(),
        same_board(g, run(g, ws, n).0),
        forall|i: int|
            0 <= i < g.cells.len() ==> ((#[trigger] run(g, ws, n).0.cells[i]).status
                == g.cells[i].status || run(g, ws, n).0.cells[i].status == Status::Visited),
        run(g, ws, n).0.width == g.width,
        run(g, ws, n).0.height == g.height,
        forall|j: int|
            0 <= j < run(g, ws, n).1.len() ==> run(g, ws, n).0.in_bounds(
                (#[trigger] run(g, ws, n).1[j]).coords,
            ),
        forall|j: int|
            0 <= j < run(g, ws, n).1.len() ==> (#[trigger] run(g, ws, n).1[j]).path.len() == n,
    decreases n,
{
    if n > 0 {
        lemma_run_wavefront(g, ws, (n - 1) as nat);
        let prev = run(g, ws, (n - 1) as nat);
        lemma_tick_grid(prev.0, prev.1);
        lemma_next_set_children(prev.0, prev.1);
        lemma_wavefront_depth(prev.0, prev.1, (n - 1) as nat);
    }
}

/// A "goal reached" notification comes only from a walker that stood, when the
/// tick began, on a cell whose status was still Target: a win on some tick
/// exhibits a walker whose current coordinate is the Target cell.
pub proof fn lemma_win_on_target(g: GridV, ws: Seq<WalkerV>)
    requires
        g.wf(),
        forall|j: int| 0 <= j < ws.len() ==> g.in_bounds((#[trigger] ws[j]).coords),
    ensures
        tick(g, ws).wins > 0 ==> exists|i: int|
            0 <= i < ws.len() && g.cell((#[trigger] ws[i]).coords).status == Status::Target,
        tick(g, ws).wins >= 0,
    decreases ws.len(),
{
    if ws.len() > 0 {
        let prefix = ws.drop_last();
        let last = ws.last();
        lemma_win_on_target(g, prefix);
        lemma_tick_grid(g, prefix);
        let rest = tick(g, prefix);
        let one = walker_step(rest.grid, last);
        if tick(g, ws).wins > 0 {
            if rest.wins > 0 {
                let i = choose|i: int|
                    0 <= i < prefix.len() && g.cell(
                        (#[trigger] prefix[i]).coords,
                    ).status == Status::Target;
                assert(ws[i] == prefix[i]);
                assert(g.cell(ws[i].coords).status == Status::Target);
            } else {
                // the last walker's own cell showed Target on the grid the
                // prefix left behind; statuses only ever move to Visited, so
                // it was Target on the starting grid too
                assert(one.wins == 1);
                assert(rest.grid.cell(last.coords).status == Status::Target);
                assert(g.in_bounds(last.coords));
                crate::grid::lemma_idx_bound(g, last.coords);
                let ii = g.idx(last.coords);
                assert(rest.grid.cells[ii] == rest.grid.cell(last.coords));
                assert(g.cells[ii].status == Status::Target);
                assert(0 <= ws.len() - 1 < ws.len() && g.cell(
                    ws[ws.len() - 1].coords,
                ).status == Status::Target);
            }
        }
    }
}

/// A cell on which no walker of the set stands is left untouched by the tick:
/// each walker marks only the cell it occupies.
pub proof fn lemma_untouched_cell(g: GridV, ws: Seq<WalkerV>, c: (usize, usize))
    requires
        g.wf(),
        forall|j: int| 0 <= j < ws.len() ==> g.in_bounds((#[trigger] ws[j]).coords),
        g.in_bounds(c),
        forall|j: int| 0 <= j < ws.len() ==> (#[trigger] ws[j]).coords != c,
    ensures
        tick(g, ws).grid.cell(c) == g.cell(c),
    decreases ws.len(),
{
    if ws.len() > 0 {
        let prefix = ws.drop_last();
        let last = ws.last();
        lemma_untouched_cell(g, prefix, c);
        lemma_tick_grid(g, prefix);
        let rg = tick(g, prefix).grid;
        lemma_walker_step_grid(rg, last);
        crate::grid::lemma_idx_bound(rg, last.coords);
        crate::grid::lemma_idx_bound(rg, c);
        crate::grid::lemma_idx_injective(rg, last.coords, c);
        assert(tick(g, ws).grid == rg.marked(last.coords));
        assert(tick(g, ws).grid.cell(c) == rg.cell(c));
    }
}

/// The attainment side of the notification rule: the tick whose set holds a
/// walker standing on a cell that is still the Target fires at least one
/// "goal reached" that very tick — the notification is never delayed past the
/// arrival. Together with `lemma_win_exhibits_route`, the first notification
/// comes exactly on the first tick some walker occupies the Target cell.
pub proof fn lemma_win_fires_on_target(g: GridV, ws: Seq<WalkerV>, c: (usize, usize))
    requires
        g.wf(),
        forall|j: int| 0 <= j < ws.len() ==> g.in_bounds((#[trigger] ws[j]).coords),
        g.cell(c).status == Status::Target,
        exists|i: int| 0 <= i < ws.len() && (#[trigger] ws[i]).coords == c,
    ensures
        tick(g, ws).wins >= 1,
    decreases ws.len(),
{
    let prefix = ws.drop_last();
    let last = ws.last();
    lemma_tick_grid(g, prefix);
    let rest = tick(g, prefix);
    let one = walker_step(rest.grid, last);
    assert(one.wins == 0 || one.wins == 1);
    if exists|i: int| 0 <= i < prefix.len() && (#[trigger] prefix[i]).coords == c {
        lemma_win_fires_on_target(g, prefix, c);
    } else {
        // the witness can only be the last walker, so no prefix walker stands
        // on c and the prefix leaves the Target status in place
        let i = choose|i: int| 0 <= i < ws.len() && (#[trigger] ws[i]).coords == c;
        if i < ws.len() - 1 {
            assert(prefix[i] == ws[i] && prefix[i].coords == c);
        }
        assert(i == ws.len() - 1);
        assert(last.coords == c);
        assert(g.in_bounds(c));
        assert forall|j: int| 0 <= j < prefix.len() implies (#[trigger] prefix[j]).coords
            != c by {
            assert(prefix[j] == ws[j]);
        }
        lemma_untouched_cell(g, prefix, c);
        assert(rest.grid.cell(c).status == Status::Target);
        assert(one.wins == 1);
        lemma_win_on_target(g, prefix);
    }
}

/// The shortest-path bound, one direction: when the tick after n quiet ticks
/// fires a "goal reached", some active walker traces a legal route of exactly
/// n + 1 cells from the entrance to a cell that was the Target from the
/// start. The notification therefore can never fire before the tick whose
/// index equals the length of the shortest start-to-Target route.
pub proof fn lemma_win_exhibits_route(g: GridV, ws: Seq<WalkerV>, o: (usize, usize), n: nat)
    requires
        g.wf(),
        forall|j: int| 0 <= j < ws.len() ==> g.in_bounds((#[trigger] ws[j]).coords),
        forall|j: int| 0 <= j < ws.len() ==> (#[trigger] ws[j]).path.len() == 0,
        forall|j: int| 0 <= j < ws.len() ==> (#[trigger] ws[j]).coords == o,
        tick(run(g, ws, n).0, run(g, ws, n).1).wins > 0,
    ensures
        exists|k: int|
            0 <= k < run(g, ws, n).1.len() && route_ok(
                g,
                (#[trigger] run(g, ws, n).1[k]).path,
                run(g, ws, n).1[k].coords,
            ) && run(g, ws, n).1[k].path.len() == n && run(g, ws, n).1[k].path.push(
                run(g, ws, n).1[k].coords,
            )[0] == o && g.cell(run(g, ws, n).1[k].coords).status == Status::Target,
{
    lemma_run_wavefront(g, ws, n);
    lemma_run_routes(g, ws, o, n);
    let prev = run(g, ws, n);
    lemma_win_on_target(prev.0, prev.1);
    let i = choose|i: int|
        0 <= i < prev.1.len() && prev.0.cell((#[trigger] prev.1[i]).coords).status
            == Status::Target;
    let w = prev.1[i];
    // Target on the grid after n ticks was Target from the start: a status
    // only ever changes to Visited
    assert(prev.0.in_bounds(w.coords));
    assert(g.in_bounds(w.coords));
    crate::grid::lemma_idx_bound(g, w.coords);
    let ii = g.idx(w.coords);
    assert(prev.0.cells[ii] == prev.0.cell(w.coords));
    assert(g.cells[ii].status == Status::Target);
    assert(0 <= i < run(g, ws, n).1.len() && route_ok(
        g,
        run(g, ws, n).1[i].path,
        run(g, ws, n).1[i].coords,
    ) && run(g, ws, n).1[i].path.len() == n && run(g, ws, n).1[i].path.push(
        run(g, ws, n).1[i].coords,
    )[0] == o && g.cell(run(g, ws, n).1[i].coords).status == Status::Target);
}

/// Processes one walker on the current grid: marks its cell Visited and
/// returns the walkers it leaves behind, exactly as `walker_step` states —
/// (moved in place, forked children, stood on the Target).
fn step_walker(grid: &mut Grid, w: &Walker) -> (r: (Vec<Walker>, Vec<Walker>, bool))
    requires
        old(grid).wf(),
        old(grid)@.in_bounds(w@.coords),
    ensures
        final(grid)@ == walker_step(old(grid)@, w@).grid,
        final(grid).wf(),
        final(grid)@.width == old(grid)@.width,
        final(grid)@.height == old(grid)@.height,
        views(r.0@) == walker_step(old(grid)@, w@).moved,
        views(r.1@) == walker_step(old(grid)@, w@).forked,
        (if r.2 {
            1int
        } else {
            0int
        }) == walker_step(old(grid)@, w@).wins,
{
    let ghost g0 = old(grid)@;
    let c = w.coords;
    let cell = grid.cell(c);
    let win = cell.status == Status::Target;
    grid.mark_visited(c);
    let ghost g1 = grid@;
    let ghost w1v = WalkerV { coords: w@.coords, path: w@.path.push(w@.coords) };
    proof {
        crate::grid::lemma_idx_bound(g0, c);
        assert(g1.cell(c) == crate::grid::Cell {
            to_upper: cell.to_upper,
            to_right: cell.to_right,
            to_down: cell.to_down,
            to_left: cell.to_left,
            status: Status::Visited,
        });
    }
    let up_ok = if c.1 > 0 {
        cell.to_upper && grid.is_vacant((c.0, c.1 - 1))
    } else {
        false
    };
    let right_ok = cell.to_right && grid.is_vacant((c.0 + 1, c.1));
    let down_ok = cell.to_down && grid.is_vacant((c.0, c.1 + 1));
    let left_ok = if c.0 > 0 {
        cell.to_left && grid.is_vacant((c.0 - 1, c.1))
    } else {
        false
    };
    proof {
        assert(up_ok == eligible(g1, c, Dir::Up));
        assert(right_ok == eligible(g1, c, Dir::Right));
        assert(down_ok == eligible(g1, c, Dir::Down));
        assert(left_ok == eligible(g1, c, Dir::Left));
    }
    let mut moved: Vec<Walker> = Vec::new();
    let mut forked: Vec<Walker> = Vec::new();
    let e = cell.exits();
    if e == 1 {
        // dead end: the walker dies with no movement and no forking
        proof {
            assert(views(moved@) =~= walker_step(g0, w@).moved);
            assert(views(forked@) =~= walker_step(g0, w@).forked);
        }
    } else if e == 2 {
        if up_ok {
            let child = w.advanced((c.0, c.1 - 1));
            proof {
                assert(child@ =~= WalkerV { coords: move_dest(c, Dir::Up), path: w1v.path });
            }
            moved.push(child);
        } else if right_ok {
            let child = w.advanced((c.0 + 1, c.1));
            proof {
                assert(child@ =~= WalkerV { coords: move_dest(c, Dir::Right), path: w1v.path });
            }
            moved.push(child);
        } else if down_ok {
            let child = w.advanced((c.0, c.1 + 1));
            proof {
                assert(child@ =~= WalkerV { coords: move_dest(c, Dir::Down), path: w1v.path });
            }
            moved.push(child);
        } else if left_ok {
            let child = w.advanced((c.0 - 1, c.1));
            proof {
                assert(child@ =~= WalkerV { coords: move_dest(c, Dir::Left), path: w1v.path });
            }
            moved.push(child);
        }
        // else: blocked on every side, the walker dies
        proof {
            assert(views(moved@) =~= walker_step(g0, w@).moved);
            assert(views(forked@) =~= walker_step(g0, w@).forked);
        }
    } else {
        // junction: fork one child per eligible direction; the parent dies
        if up_ok {
            let child = w.advanced((c.0, c.1 - 1));
            proof {
                assert(child@ =~= WalkerV { coords: move_dest(c, Dir::Up), path: w1v.path });
                lemma_views_push(forked@, child);
            }
            forked.push(child);
        }
        proof {
            assert(views(forked@) =~= fork_at(g1, w1v, Dir::Up));
        }
        if right_ok {
            let child = w.advanced((c.0 + 1, c.1));
            proof {
                assert(child@ =~= WalkerV { coords: move_dest(c, Dir::Right), path: w1v.path });
                lemma_views_push(forked@, child);
            }
            forked.push(child);
        }
        proof {
            assert(views(forked@) =~= fork_at(g1, w1v, Dir::Up) + fork_at(g1, w1v, Dir::Right));
        }
        if down_ok {
            let child = w.advanced((c.0, c.1 + 1));
            proof {
                assert(child@ =~= WalkerV { coords: move_dest(c, Dir::Down), path: w1v.path });
                lemma_views_push(forked@, child);
            }
            forked.push(child);
        }
        proof {
            assert(views(forked@) =~= fork_at(g1, w1v, Dir::Up) + fork_at(g1, w1v, Dir::Right)
                + fork_at(g1, w1v, Dir::Down));
        }
        if left_ok {
            let child = w.advanced((c.0 - 1, c.1));
            proof {
                assert(child@ =~= WalkerV { coords: move_dest(c, Dir::Left), path: w1v.path });
                lemma_views_push(forked@, child);
            }
            forked.push(child);
        }
        proof {
            assert(views(forked@) =~= fork_at(g1, w1v, Dir::Up) + fork_at(g1, w1v, Dir::Right)
                + fork_at(g1, w1v, Dir::Down) + fork_at(g1, w1v, Dir::Left));
            assert(views(moved@) =~= walker_step(g0, w@).moved);
            assert(views(forked@) =~= walker_step(g0, w@).forked);
        }
    }
    (moved, forked, win)
}

/// One tick of the Walker Lifecycle Engine: processes every walker of the
/// current set in order, mutating the grid's visitation statuses, and returns
/// the next tick's walker set together with the number of "goal reached"
/// notifications emitted this tick. The behavior is stated exactly by the
/// spec functions `tick` and `next_set`.
pub fn step(grid: &mut Grid, walkers: &Vec<Walker>) -> (r: (Vec<Walker>, usize))
    requires
        old(grid).wf(),
        forall|j: int|
            0 <= j < walkers@.len() ==> old(grid)@.in_bounds((#[trigger] walkers@[j])@.coords),
    ensures
        final(grid)@ == tick(old(grid)@, views(walkers@)).grid,
        final(grid).wf(),
        views(r.0@) == next_set(old(grid)@, views(walkers@)),
        r.1 as int == tick(old(grid)@, views(walkers@)).wins,
{
    let ghost g0 = old(grid)@;
    let ghost wsv = views(walkers@);
    let mut moved: Vec<Walker> = Vec::new();
    let mut forked: Vec<Walker> = Vec::new();
    let mut wins: usize = 0;
    let mut i: usize = 0;
    proof {
        assert(wsv.take(0) =~= Seq::<WalkerV>::empty());
    }
    while i < walkers.len()
        invariant
            i <= walkers@.len(),
            wsv == views(walkers@),
            wsv.len() == walkers@.len(),
            g0.wf(),
            forall|j: int|
                0 <= j < walkers@.len() ==> g0.in_bounds((#[trigger] walkers@[j])@.coords),
            grid.wf(),
            grid@.width == g0.width,
            grid@.height == g0.height,
            grid@ == tick(g0, wsv.take(i as int)).grid,
            views(moved@) == tick(g0, wsv.take(i as int)).moved,
            views(forked@) == tick(g0, wsv.take(i as int)).forked,
            wins as int == tick(g0, wsv.take(i as int)).wins,
            wins <= i,
        decreases walkers@.len() - i,
    {
        let w = &walkers[i];
        proof {
            assert(g0.in_bounds(walkers@[i as int]@.coords));
            assert(grid@.in_bounds(w@.coords));
        }
        let ghost g_pre = grid@;
        let ghost m_pre = moved@;
        let ghost f_pre = forked@;
        let (mut m1, mut f1, win) = step_walker(grid, w);
        proof {
            lemma_views_add(m_pre, m1@);
            lemma_views_add(f_pre, f1@);
        }
        moved.append(&mut m1);
        forked.append(&mut f1);
        if win {
            wins += 1;
        }
        proof {
            let pre = wsv.take(i as int);
            let post = wsv.take(i as int + 1);
            assert(post.drop_last() =~= pre);
            assert(post.last() == wsv[i as int]);
            assert(wsv[i as int] == walkers@[i as int]@);
            assert(tick(g0, post).grid == walker_step(tick(g0, pre).grid, w@).grid);
            assert(views(moved@) == tick(g0, post).moved);
            assert(views(forked@) == tick(g0, post).forked);
        }
        i += 1;
    }
    proof {
        assert(wsv.take(walkers@.len() as int) =~= wsv);
    }
    proof {
        lemma_views_add(moved@, forked@);
    }
    moved.append(&mut forked);
    (moved, wins)
}

} // verus!

