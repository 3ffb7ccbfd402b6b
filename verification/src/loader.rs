use vstd::prelude::*;
use crate::grid::{cell_of_flags, Grid, MazeError, Status};

verus! {

/// Horizontal and vertical pixel pitch of one maze cell in the source bitmap.
pub const CELL_SIZE: usize = 16;

/// Thickness in pixels of the walls drawn in the source bitmap.
pub const WALL_SIZE: usize = 2;

/// Index of pixel (x, y) in a row-major brightness buffer of width `img_w`.
pub open spec fn pix_idx(img_w: int, x: int, y: int) -> int {
    x + img_w * y
}

/// Whether the pixel at (x, y) is bright (nonzero). A bright sample on a
/// cell boundary means the boundary is open; a dark one means a wall.
pub open spec fn bright(pix: Seq<u8>, img_w: int, x: int, y: int) -> bool {
    pix[pix_idx(img_w, x, y)] > 0
}

/// The four boundary flags (upper, right, down, left) of the maze cell at
/// column `x`, row `y`, as the bitmap encodes them: the cell's pixel origin
/// is one pixel inside its top-left corner, and each boundary is sampled at a
/// fixed offset within the cell's pitch.
pub open spec fn spec_cell_flags(pix: Seq<u8>, img_w: int, x: int, y: int) -> (
    bool,
    bool,
    bool,
    bool,
) {
    let xc = x * CELL_SIZE + 1;
    let yc = y * CELL_SIZE + 1;
    (
        bright(pix, img_w, xc + WALL_SIZE, yc),
        bright(pix, img_w, xc + CELL_SIZE, yc + WALL_SIZE),
        bright(pix, img_w, xc + WALL_SIZE, yc + CELL_SIZE),
        bright(pix, img_w, xc, yc + WALL_SIZE),
    )
}

/// Number of whole maze cells across a bitmap dimension of `d` pixels: the
/// wall margin is taken off, and the rest is divided by the cell pitch.
pub open spec fn lab_dim(d: int) -> int {
    (d - WALL_SIZE) / (CELL_SIZE as int)
}

/// A row-major pixel index is within the buffer.
pub proof fn lemma_pix_bound(img_w: int, img_h: int, x: int, y: int)
    requires
        1 <= img_w,
        0 <= x < img_w,
        0 <= y < img_h,
    ensures
        0 <= pix_idx(img_w, x, y) < img_w * img_h,
{
    assert(0 <= x + img_w * y < img_w * img_h) by (nonlinear_arith)
        requires
            1 <= img_w,
            0 <= x < img_w,
            0 <= y < img_h,
    ;
}

/// For a cell column or row within the maze dimensions, every pixel the cell's
/// flags sample lies strictly inside the bitmap.
pub proof fn lemma_sample_bounds(d: int, v: int)
    requires
        WALL_SIZE + CELL_SIZE <= d,
        0 <= v < lab_dim(d),
    ensures
        v * CELL_SIZE + 1 + CELL_SIZE < d,
{
    assert((d - 2) / 16 * 16 <= d - 2) by (nonlinear_arith)
        requires
            18 <= d,
    ;
    assert(v * 16 <= (lab_dim(d) - 1) * 16) by (nonlinear_arith)
        requires
            v <= lab_dim(d) - 1,
    ;
}

/// Splitting a row-major index back into its coordinates.
pub proof fn lemma_coord_div_mod(x: int, y: int, w: int)
    requires
        1 <= w,
        0 <= x < w,
        0 <= y,
    ensures
        (x + w * y) % w == x,
        (x + w * y) / w == y,
{
    assert((x + w * y) % w == x && (x + w * y) / w == y) by (nonlinear_arith)
        requires
            1 <= w,
            0 <= x < w,
            0 <= y,
    ;
}

/// Reads one brightness sample.
fn bright_at(pix: &Vec<u8>, img_w: usize, img_h: usize, x: usize, y: usize) -> (r: bool)
    requires
        pix@.len() == img_w * img_h,
        x < img_w,
        y < img_h,
    ensures
        r == bright(pix@, img_w as int, x as int, y as int),
{
    proof {
        lemma_pix_bound(img_w as int, img_h as int, x as int, y as int);
    }
    let n = pix.len();
    assert(x + img_w * y < n);
    pix[x + img_w * y] > 0
}

/// Builds a maze from a row-major brightness buffer (one sample per pixel) of
/// an `img_w` by `img_h` bitmap: grid dimensions come from the bitmap
/// dimensions minus the wall margin, divided by the cell pitch, and each
/// cell's four boundary flags come from the samples `spec_cell_flags` names.
/// Fails when the bitmap cannot hold one cell, when the buffer length does
/// not match the dimensions, or when some cell would have no exit at all.
pub fn decode_maze(pix: &Vec<u8>, img_w: usize, img_h: usize) -> (r: Result<Grid, MazeError>)
    ensures
        r is Ok <==> {
            &&& img_w >= WALL_SIZE + CELL_SIZE
            &&& img_h >= WALL_SIZE + CELL_SIZE
            &&& pix@.len() == img_w * img_h
            &&& forall|x: int, y: int|
                0 <= x < lab_dim(img_w as int) && 0 <= y < lab_dim(img_h as int)
                    ==> cell_of_flags(
                    #[trigger] spec_cell_flags(pix@, img_w as int, x, y),
                    Status::Unvisited,
                ).spec_exits() >= 1
        },
        r is Err ==> (r == Err::<Grid, MazeError>(MazeError::ImageTooSmall) || r == Err::<
            Grid,
            MazeError,
        >(MazeError::WrongPixelCount) || r matches Err(MazeError::NoExit { x, y })),
        r == Err::<Grid, MazeError>(MazeError::ImageTooSmall) <==> (img_w < WALL_SIZE + CELL_SIZE
            || img_h < WALL_SIZE + CELL_SIZE),
        r == Err::<Grid, MazeError>(MazeError::WrongPixelCount) <==> (img_w >= WALL_SIZE
            + CELL_SIZE && img_h >= WALL_SIZE + CELL_SIZE && pix@.len() != img_w * img_h),
        r matches Err(MazeError::NoExit { x, y }) ==> {
            &&& x < lab_dim(img_w as int)
            &&& y < lab_dim(img_h as int)
            &&& cell_of_flags(
                spec_cell_flags(pix@, img_w as int, x as int, y as int),
                Status::Unvisited,
            ).spec_exits() == 0
        },
        r matches Ok(g) ==> {
            &&& g.wf()
            &&& g@.width == lab_dim(img_w as int)
            &&& g@.height == lab_dim(img_h as int)
            &&& forall|i: int|
                0 <= i < g@.cells.len() ==> #[trigger] g@.cells[i] == cell_of_flags(
                    spec_cell_flags(
                        pix@,
                        img_w as int,
                        i % lab_dim(img_w as int),
                        i / lab_dim(img_w as int),
                    ),
                    if i == g@.cells.len() - 1 {
                        Status::Target
                    } else {
                        Status::Unvisited
                    },
                )
        },
{
    if img_w < WALL_SIZE + CELL_SIZE || img_h < WALL_SIZE + CELL_SIZE {
        return Err(MazeError::ImageTooSmall);
    }
    let n_pix = pix.len();
    let pixel_count = match img_w.checked_mul(img_h) {
        Some(t) => t,
        None => {
            // the product exceeds usize, so no buffer length can match it
            assert(pix@.len() != img_w * img_h);
            return Err(MazeError::WrongPixelCount);
        },
    };
    if n_pix != pixel_count {
        return Err(MazeError::WrongPixelCount);
    }
    let lab_w = (img_w - WALL_SIZE) / CELL_SIZE;
    let lab_h = (img_h - WALL_SIZE) / CELL_SIZE;
    proof {
        assert((img_w - 2) / 16 >= 1 && (img_h - 2) / 16 >= 1) by (nonlinear_arith)
            requires
                18 <= img_w,
                18 <= img_h,
        ;
    }
    let total = match lab_w.checked_mul(lab_h) {
        Some(t) => t,
        None => {
            proof {
                // lab_w * lab_h <= img_w * img_h, which fits in usize
                assert(lab_dim(img_w as int) * lab_dim(img_h as int) <= img_w * img_h)
                    by (nonlinear_arith)
                    requires
                        18 <= img_w,
                        18 <= img_h,
                        1 <= lab_dim(img_w as int) <= img_w,
                        1 <= lab_dim(img_h as int) <= img_h,
                ;
                assert((img_w - 2) / 16 <= img_w && (img_h - 2) / 16 <= img_h)
                    by (nonlinear_arith)
                    requires
                        18 <= img_w,
                        18 <= img_h,
                ;
                assert(false);
            }
            return Err(MazeError::WrongPixelCount);
        },
    };
    let mut flags: Vec<(bool, bool, bool, bool)> = Vec::new();
    let mut i: usize = 0;
    while i < total
        invariant
            i <= total,
            total == lab_w * lab_h,
            1 <= lab_w,
            1 <= lab_h,
            lab_w == lab_dim(img_w as int),
            lab_h == lab_dim(img_h as int),
            WALL_SIZE + CELL_SIZE <= img_w,
            WALL_SIZE + CELL_SIZE <= img_h,
            pix@.len() == img_w * img_h,
            flags@.len() == i,
            forall|j: int|
                0 <= j < i ==> #[trigger] flags@[j] == spec_cell_flags(
                    pix@,
                    img_w as int,
                    j % lab_w as int,
                    j / lab_w as int,
                ),
        decreases total - i,
    {
        let x = i % lab_w;
        let y = i / lab_w;
        proof {
            crate::grid::lemma_div_mod_coord(i as int, lab_w as int, lab_h as int);
            lemma_sample_bounds(img_w as int, x as int);
            lemma_sample_bounds(img_h as int, y as int);
        }
        let xc = x * CELL_SIZE + 1;
        let yc = y * CELL_SIZE + 1;
        let f = (
            bright_at(pix, img_w, img_h, xc + WALL_SIZE, yc),
            bright_at(pix, img_w, img_h, xc + CELL_SIZE, yc + WALL_SIZE),
            bright_at(pix, img_w, img_h, xc + WALL_SIZE, yc + CELL_SIZE),
            bright_at(pix, img_w, img_h, xc, yc + WALL_SIZE),
        );
        proof {
            assert(f == spec_cell_flags(pix@, img_w as int, i as int % lab_w as int, i as int
                / lab_w as int));
        }
        flags.push(f);
        i += 1;
    }
    let ghost flags_v = flags@;
    let r = Grid::new(lab_w, lab_h, flags);
    proof {
        // success is owed exactly when every cell decodes to at least one
        // exit: the per-index condition of Grid::new and the per-coordinate
        // condition of this function's contract are the same statement
        let lw = lab_dim(img_w as int);
        let lh = lab_dim(img_h as int);
        let ok_flags = forall|i: int|
            0 <= i < flags_v.len() ==> (#[trigger] cell_of_flags(
                flags_v[i],
                Status::Unvisited,
            )).spec_exits() >= 1;
        let ok_cells = forall|x: int, y: int|
            0 <= x < lw && 0 <= y < lh ==> cell_of_flags(
                #[trigger] spec_cell_flags(pix@, img_w as int, x, y),
                Status::Unvisited,
            ).spec_exits() >= 1;
        if ok_flags {
            assert forall|x: int, y: int| 0 <= x < lw && 0 <= y < lh implies cell_of_flags(
                #[trigger] spec_cell_flags(pix@, img_w as int, x, y),
                Status::Unvisited,
            ).spec_exits() >= 1 by {
                assert(x + lw * y < lw * lh) by (nonlinear_arith)
                    requires
                        0 <= x < lw,
                        0 <= y < lh,
                ;
                lemma_coord_div_mod(x, y, lw);
                assert(flags_v[x + lw * y] == spec_cell_flags(pix@, img_w as int, x, y));
                assert(cell_of_flags(flags_v[x + lw * y], Status::Unvisited).spec_exits() >= 1);
            }
            assert(ok_cells);
        }
        if ok_cells {
            assert forall|i: int| 0 <= i < flags_v.len() implies (#[trigger] cell_of_flags(
                flags_v[i],
                Status::Unvisited,
            )).spec_exits() >= 1 by {
                crate::grid::lemma_div_mod_coord(i, lw, lh);
                assert(flags_v[i] == spec_cell_flags(pix@, img_w as int, i % lw, i / lw));
                assert(cell_of_flags(
                    spec_cell_flags(pix@, img_w as int, i % lw, i / lw),
                    Status::Unvisited,
                ).spec_exits() >= 1);
            }
            assert(ok_flags);
        }
        assert(ok_flags <==> ok_cells);
        match &r {
            Ok(g) => {
                assert forall|j: int| 0 <= j < g@.cells.len() implies #[trigger] g@.cells[j]
                    == cell_of_flags(
                    spec_cell_flags(pix@, img_w as int, j % lab_dim(img_w as int), j / lab_dim(
                        img_w as int,
                    )),
                    if j == g@.cells.len() - 1 {
                        Status::Target
                    } else {
                        Status::Unvisited
                    },
                ) by {
                    assert(g@.cells[j] == cell_of_flags(
                        flags_v[j],
                        if j == flags_v.len() - 1 {
                            Status::Target
                        } else {
                            Status::Unvisited
                        },
                    ));
                }
            },
            Err(e) => {
                match *e {
                    MazeError::NoExit { x, y } => {
                        assert(x + lab_w * y < lab_w * lab_h) by (nonlinear_arith)
                            requires
                                x < lab_w,
                                y < lab_h,
                                1 <= lab_w,
                                1 <= lab_h,
                        ;
                        lemma_coord_div_mod(x as int, y as int, lab_w as int);
                        assert(flags_v[x + lab_w * y] == spec_cell_flags(
                            pix@,
                            img_w as int,
                            x as int,
                            y as int,
                        ));
                    },
                    _ => {},
                }
            },
        }
    }
    r
}

} // verus!
