use vstd::prelude::*;

verus! {

/// Visitation state of one maze cell.
#[derive(Clone, Copy, PartialEq, Eq, Structural, Debug)]
pub enum Status {
    Unvisited,
    Visited,
    Target,
}

/// One maze tile: four boundary-opening flags (true means the boundary toward
/// that neighbor is passable, false means it is a wall) and a visitation status.
/// The flags are fixed at construction; only the status ever changes.
#[derive(Clone, Copy, PartialEq, Eq, Structural, Debug)]
pub struct Cell {
    pub to_upper: bool,
    pub to_right: bool,
    pub to_down: bool,
    pub to_left: bool,
    pub status: Status,
}

/// A neighbor direction. The engine always considers directions in the fixed
/// priority order: up, right, down, left.
#[derive(Clone, Copy, PartialEq, Eq, Structural, Debug)]
pub enum Dir {
    Up,
    Right,
    Down,
    Left,
}

impl Cell {
    /// Number of passable boundaries of this cell.
    pub open spec fn spec_exits(self) -> int {
        (if self.to_upper {
            1int
        } else {
            0int
        }) + (if self.to_right {
            1int
        } else {
            0int
        }) + (if self.to_down {
            1int
        } else {
            0int
        }) + (if self.to_left {
            1int
        } else {
            0int
        })
    }

    /// Whether the boundary toward direction `d` is passable.
    pub open spec fn open_toward(self, d: Dir) -> bool {
        match d {
            Dir::Up => self.to_upper,
            Dir::Right => self.to_right,
            Dir::Down => self.to_down,
            Dir::Left => self.to_left,
        }
    }

    /// Counts the passable boundaries of this cell.
    pub fn exits(&self) -> (r: u8)
        ensures
            r as int == self.spec_exits(),
    {
        let mut exits: u8 = 0;
        if self.to_upper {
            exits += 1;
        }
        if self.to_right {
            exits += 1;
        }
        if self.to_down {
            exits += 1;
        }
        if self.to_left {
            exits += 1;
        }
        exits
    }
}

/// Why a maze could not be constructed.
#[derive(Clone, Copy, PartialEq, Eq, Structural, Debug)]
pub enum MazeError {
    /// A grid dimension is zero.
    EmptyGrid,
    /// The number of supplied cells does not match width * height.
    WrongCellCount,
    /// The cell at (x, y) has no passable boundary at all: the maze source is
    /// malformed and there is no meaningful partial result.
    NoExit { x: usize, y: usize },
    /// The bitmap is too small to hold even one cell.
    ImageTooSmall,
    /// The number of supplied pixels does not match the bitmap dimensions.
    WrongPixelCount,
}

/// The cell built from four boundary flags (upper, right, down, left) and a status.
pub open spec fn cell_of_flags(f: (bool, bool, bool, bool), st: Status) -> Cell {
    Cell { to_upper: f.0, to_right: f.1, to_down: f.2, to_left: f.3, status: st }
}

/// Mathematical model of a Grid: its dimensions and the row-major cell sequence.
#[verifier::ext_equal]
pub ghost struct GridV {
    pub width: int,
    pub height: int,
    pub cells: Seq<Cell>,
}

impl GridV {
    /// Row-major index of coordinate `c`.
    pub open spec fn idx(self, c: (usize, usize)) -> int {
        c.0 + self.width * c.1
    }

    pub open spec fn in_bounds(self, c: (usize, usize)) -> bool {
        c.0 < self.width && c.1 < self.height
    }

    pub open spec fn cell(self, c: (usize, usize)) -> Cell {
        self.cells[self.idx(c)]
    }

    /// Well-formedness: positive dimensions, a cell for every coordinate, and
    /// every cell with an exit count in {1, 2, 3, 4}.
    pub open spec fn wf(self) -> bool {
        &&& 1 <= self.width <= usize::MAX
        &&& 1 <= self.height <= usize::MAX
        &&& self.cells.len() == self.width * self.height
        &&& forall|i: int|
            0 <= i < self.cells.len() ==> 1 <= (#[trigger] self.cells[i]).spec_exits() <= 4
    }

    /// A cell is vacant when it lies in the grid and is not marked Visited;
    /// Target and Unvisited cells both count as vacant.
    pub open spec fn is_vacant(self, c: (usize, usize)) -> bool {
        self.in_bounds(c) && self.cell(c).status != Status::Visited
    }

    /// The grid with the cell at `c` marked Visited; flags and all other cells unchanged.
    pub open spec fn marked(self, c: (usize, usize)) -> GridV {
        GridV {
            width: self.width,
            height: self.height,
            cells: self.cells.update(
                self.idx(c),
                Cell {
                    to_upper: self.cell(c).to_upper,
                    to_right: self.cell(c).to_right,
                    to_down: self.cell(c).to_down,
                    to_left: self.cell(c).to_left,
                    status: Status::Visited,
                },
            ),
        }
    }
}

/// The row-major index of an in-bounds coordinate lies within the cell sequence.
pub proof fn lemma_idx_bound(g: GridV, c: (usize, usize))
    requires
        g.wf(),
        g.in_bounds(c),
    ensures
        0 <= g.idx(c) < g.cells.len(),
        c.0 + g.width * c.1 < g.width * g.height,
{
    assert(c.0 + g.width * c.1 < g.width * g.height) by (nonlinear_arith)
        requires
            c.0 < g.width,
            c.1 < g.height,
            1 <= g.width,
            1 <= g.height,
    ;
}

/// Distinct in-bounds coordinates have distinct row-major indices.
pub proof fn lemma_idx_injective(g: GridV, a: (usize, usize), b: (usize, usize))
    requires
        g.wf(),
        g.in_bounds(a),
        g.in_bounds(b),
        a != b,
    ensures
        g.idx(a) != g.idx(b),
{
    assert(a.0 + g.width * a.1 != b.0 + g.width * b.1) by (nonlinear_arith)
        requires
            a.0 < g.width,
            b.0 < g.width,
            1 <= g.width,
            !(a.0 == b.0 && a.1 == b.1),
    ;
}

/// A fixed-size rectangular maze: a row-major vector of cells. Exactly one
/// cell -- the last in row-major order -- starts with status Target; all
/// others start Unvisited.
pub struct Grid {
    width: usize,
    height: usize,
    cells: Vec<Cell>,
}

impl View for Grid {
    type V = GridV;

    closed spec fn view(&self) -> GridV {
        GridV { width: self.width as int, height: self.height as int, cells: self.cells@ }
    }
}

impl Grid {
    pub open spec fn wf(self) -> bool {
        self@.wf()
    }

    /// Builds a maze from its dimensions and one 4-tuple of boundary flags
    /// (upper, right, down, left) per cell, row-major. The last cell becomes
    /// the Target; every other cell starts Unvisited. Construction fails when
    /// a dimension is zero, when the flag count does not match the dimensions,
    /// or when some cell would have zero exits (a malformed maze).
    pub fn new(width: usize, height: usize, flags: Vec<(bool, bool, bool, bool)>) -> (r: Result<
        Grid,
        MazeError,
    >)
        ensures
            r is Ok <==> {
                &&& 1 <= width
                &&& 1 <= height
                &&& flags@.len() == width * height
                &&& forall|i: int|
                    0 <= i < flags@.len() ==> (#[trigger] cell_of_flags(
                        flags@[i],
                        Status::Unvisited,
                    )).spec_exits() >= 1
            },
            r matches Ok(g) ==> {
                &&& g.wf()
                &&& g@.width == width
                &&& g@.height == height
                &&& g@.cells.len() == flags@.len()
                &&& forall|i: int|
                    0 <= i < flags@.len() ==> #[trigger] g@.cells[i] == cell_of_flags(
                        flags@[i],
                        if i == flags@.len() - 1 {
                            Status::Target
                        } else {
                            Status::Unvisited
                        },
                    )
            },
            r is Err ==> (r == Err::<Grid, MazeError>(MazeError::EmptyGrid) || r == Err::<
                Grid,
                MazeError,
            >(MazeError::WrongCellCount) || r matches Err(MazeError::NoExit { x, y })),
            r == Err::<Grid, MazeError>(MazeError::EmptyGrid) <==> (width == 0 || height == 0),
            r == Err::<Grid, MazeError>(MazeError::WrongCellCount) <==> (1 <= width && 1 <= height
                && flags@.len() != width * height),
            r matches Err(MazeError::NoExit { x, y }) ==> {
                &&& 1 <= width
                &&& 1 <= height
                &&& flags@.len() == width * height
                &&& x < width && y < height
                &&& cell_of_flags(flags@[x + width * y], Status::Unvisited).spec_exits() == 0
            },
    {
        if width == 0 || height == 0 {
            return Err(MazeError::EmptyGrid);
        }
        let total = match width.checked_mul(height) {
            Some(t) => t,
            None => {
                // The product exceeds usize, so no vector of flags can match it.
                return Err(MazeError::WrongCellCount);
            },
        };
        if flags.len() != total {
            return Err(MazeError::WrongCellCount);
        }
        let mut cells: Vec<Cell> = Vec::new();
        let mut i: usize = 0;
        while i < flags.len()
            invariant
                i <= flags@.len(),
                flags@.len() == width * height,
                1 <= width,
                1 <= height,
                cells@.len() == i,
                forall|j: int|
                    0 <= j < i ==> #[trigger] cells@[j] == cell_of_flags(
                        flags@[j],
                        Status::Unvisited,
                    ) && cells@[j].spec_exits() >= 1,
            decreases flags@.len() - i,
        {
            let f = flags[i];
            let cell = Cell {
                to_upper: f.0,
                to_right: f.1,
                to_down: f.2,
                to_left: f.3,
                status: Status::Unvisited,
            };
            if cell.exits() == 0 {
                let x = i % width;
                let y = i / width;
                proof {
                    lemma_div_mod_coord(i as int, width as int, height as int);
                    assert(x + width * y == i);
                    assert(cell == cell_of_flags(flags@[i as int], Status::Unvisited));
                    assert(cell_of_flags(flags@[x + width * y], Status::Unvisited).spec_exits()
                        == 0);
                }
                return Err(MazeError::NoExit { x, y });
            }
            cells.push(cell);
            i += 1;
        }
        proof {
            assert(width * height >= 1) by (nonlinear_arith)
                requires
                    1 <= width,
                    1 <= height,
            ;
        }
        let ghost base = cells@;
        let last = cells.len() - 1;
        let mut target_cell = cells[last];
        target_cell.status = Status::Target;
        cells.set(last, target_cell);
        let g = Grid { width, height, cells };
        proof {
            let n = flags@.len();
            assert forall|j: int| 0 <= j < n implies (#[trigger] cell_of_flags(
                flags@[j],
                Status::Unvisited,
            )).spec_exits() >= 1 by {
                assert(base[j] == cell_of_flags(flags@[j], Status::Unvisited));
            }
            assert forall|j: int| 0 <= j < n implies #[trigger] g@.cells[j] == cell_of_flags(
                flags@[j],
                if j == n - 1 {
                    Status::Target
                } else {
                    Status::Unvisited
                },
            ) by {
                assert(base[j] == cell_of_flags(flags@[j], Status::Unvisited));
                if j != n - 1 {
                    assert(g@.cells[j] == base[j]);
                }
            }
            assert forall|j: int| 0 <= j < g@.cells.len() implies 1 <= (
            #[trigger] g@.cells[j]).spec_exits() <= 4 by {
                assert(base[j] == cell_of_flags(flags@[j], Status::Unvisited));
                assert(base[j].spec_exits() >= 1);
            }
        }
        Ok(g)
    }

    pub fn width(&self) -> (r: usize)
        ensures
            r as int == self@.width,
    {
        self.width
    }

    pub fn height(&self) -> (r: usize)
        ensures
            r as int == self@.height,
    {
        self.height
    }

    /// Whether `c` lies within the grid dimensions.
    pub fn in_bounds(&self, c: (usize, usize)) -> (r: bool)
        ensures
            r == self@.in_bounds(c),
    {
        c.0 < self.width && c.1 < self.height
    }

    /// The cell at an in-bounds coordinate.
    pub fn cell(&self, c: (usize, usize)) -> (r: Cell)
        requires
            self.wf(),
            self@.in_bounds(c),
        ensures
            r == self@.cell(c),
    {
        proof {
            lemma_idx_bound(self@, c);
        }
        let n = self.cells.len();
        assert(c.0 + self.width * c.1 < n);
        self.cells[c.0 + self.width * c.1]
    }

    /// The status of the cell at an in-bounds coordinate.
    pub fn status(&self, c: (usize, usize)) -> (r: Status)
        requires
            self.wf(),
            self@.in_bounds(c),
        ensures
            r == self@.cell(c).status,
    {
        self.cell(c).status
    }

    /// Whether `c` is in bounds and its cell is not marked Visited.
    pub fn is_vacant(&self, c: (usize, usize)) -> (r: bool)
        requires
            self.wf(),
        ensures
            r == self@.is_vacant(c),
    {
        if self.in_bounds(c) {
            let cell = self.cell(c);
            !(cell.status == Status::Visited)
        } else {
            false
        }
    }

    /// Marks the cell at `c` Visited, overwriting Unvisited or Target alike;
    /// idempotent, and it never changes the boundary flags or any other cell.
    pub fn mark_visited(&mut self, c: (usize, usize))
        requires
            old(self).wf(),
            old(self)@.in_bounds(c),
        ensures
            final(self)@ == old(self)@.marked(c),
            final(self).wf(),
    {
        proof {
            lemma_idx_bound(self@, c);
        }
        let n = self.cells.len();
        assert(c.0 + self.width * c.1 < n);
        let i = c.0 + self.width * c.1;
        let mut cell = self.cells[i];
        cell.status = Status::Visited;
        self.cells.set(i, cell);
        proof {
            assert(self@.cells =~= old(self)@.marked(c).cells);
            assert(self@ =~= old(self)@.marked(c));
        }
    }
}

/// For 0 <= i < w * h, the coordinate (i % w, i / w) is in bounds and indexes
/// back to i.
pub proof fn lemma_div_mod_coord(i: int, w: int, h: int)
    requires
        1 <= w,
        1 <= h,
        0 <= i < w * h,
    ensures
        0 <= i % w < w,
        0 <= i / w < h,
        (i % w) + w * (i / w) == i,
{
    assert(0 <= i % w < w && 0 <= i / w < h && (i % w) + w * (i / w) == i) by (nonlinear_arith)
        requires
            1 <= w,
            1 <= h,
            0 <= i < w * h,
    ;
}

} // verus!

