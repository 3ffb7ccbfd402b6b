use labyrinth::engine::step;
use labyrinth::grid::{MazeError, Status};
use labyrinth::loader::{decode_maze, CELL_SIZE, WALL_SIZE};
use labyrinth::walker::Walker;

// A dark bitmap of the given size, row-major, one brightness sample per pixel.
fn dark(img_w: usize, img_h: usize) -> Vec<u8> {
    vec![0; img_w * img_h]
}

fn light_up(pix: &mut [u8], img_w: usize, x: usize, y: usize) {
    pix[x + img_w * y] = 255;
}

// The sample position of the "right" boundary of cell (x, y).
fn right_sample(x: usize, y: usize) -> (usize, usize) {
    (x * CELL_SIZE + 1 + CELL_SIZE, y * CELL_SIZE + 1 + WALL_SIZE)
}

#[test]
fn decode_reads_boundary_flags_from_samples() {
    // 34 x 18 pixels hold a 2 x 1 maze; one bright pixel on the shared
    // boundary opens cell (0,0) to the right and cell (1,0) to the left
    let (img_w, img_h) = (34usize, 18usize);
    let mut pix = dark(img_w, img_h);
    let (sx, sy) = right_sample(0, 0);
    light_up(&mut pix, img_w, sx, sy);
    let g = decode_maze(&pix, img_w, img_h).unwrap();
    assert_eq!(g.width(), 2);
    assert_eq!(g.height(), 1);
    let c0 = g.cell((0, 0));
    assert!(c0.to_right && !c0.to_upper && !c0.to_down && !c0.to_left);
    assert_eq!(c0.status, Status::Unvisited);
    let c1 = g.cell((1, 0));
    assert!(c1.to_left && !c1.to_upper && !c1.to_down && !c1.to_right);
    assert_eq!(c1.status, Status::Target);
}

#[test]
fn decode_rejects_an_image_too_small_for_one_cell() {
    let pix = dark(10, 10);
    assert_eq!(decode_maze(&pix, 10, 10).err(), Some(MazeError::ImageTooSmall));
}

#[test]
fn decode_rejects_a_wrong_pixel_count() {
    let pix = vec![0u8; 5];
    assert_eq!(decode_maze(&pix, 34, 18).err(), Some(MazeError::WrongPixelCount));
}

#[test]
fn decode_rejects_an_all_walled_maze() {
    // every boundary dark: the very first cell has zero exits
    let pix = dark(34, 18);
    assert_eq!(decode_maze(&pix, 34, 18).err(), Some(MazeError::NoExit { x: 0, y: 0 }));
}

#[test]
fn decoded_maze_drives_the_engine() {
    // the decoded 2x1 maze is the pathological dead-end fixture: the start
    // cell has one exit, so the first tick kills the walker and no win fires
    let (img_w, img_h) = (34usize, 18usize);
    let mut pix = dark(img_w, img_h);
    let (sx, sy) = right_sample(0, 0);
    light_up(&mut pix, img_w, sx, sy);
    let mut g = decode_maze(&pix, img_w, img_h).unwrap();
    let walkers = vec![Walker::start()];
    let (next, wins) = step(&mut g, &walkers);
    assert!(next.is_empty());
    assert_eq!(wins, 0);
    assert_eq!(g.status((0, 0)), Status::Visited);
}
