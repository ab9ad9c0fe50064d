//! Tests of the color ramp and the rasterizer.

use sparse_life::grid::Grid;
use sparse_life::position::Position;
use sparse_life::render::Zoom;

fn cell(x: i32, y: i32) -> Position {
    Position::new(x, y)
}

fn pixel(buf: &[u8], w: u32, px: u32, py: u32) -> (u8, u8, u8) {
    let i = 3 * (py as usize * w as usize + px as usize);
    (buf[i], buf[i + 1], buf[i + 2])
}

#[test]
fn color_ramp_exact_values() {
    assert_eq!(Grid::color(1), (255, 255, 255));
    assert_eq!(Grid::color(2), (0, 255, 255));
    assert_eq!(Grid::color(3), (0, 100, 255));
    assert_eq!(Grid::color(4), (0, 0, 255));
    assert_eq!(Grid::color(5), (0, 0, 230));
    assert_eq!(Grid::color(6), (0, 0, 200));
    assert_eq!(Grid::color(7), (0, 0, 150));
    assert_eq!(Grid::color(8), (0, 0, 100));
    assert_eq!(Grid::color(9), (0, 0, 91));
    assert_eq!(Grid::color(50), (0, 0, 50));
    assert_eq!(Grid::color(99), (0, 0, 1));
    assert_eq!(Grid::color(100), (0, 0, 0));
    // out-of-domain counters clamp instead of wrapping
    assert_eq!(Grid::color(150), (0, 0, 0));
    assert_eq!(Grid::color(0), (0, 0, 100));
}

#[test]
fn center_cell_is_the_middle_pixel() {
    // one cell at the camera center, one pixel per cell: exactly one
    // non-background pixel, at (w/2, h/2)
    let mut g = Grid::new();
    g.set(cell(3, 4), 1);
    let (w, h) = (8u32, 6u32);
    let buf = g.to_image(w, h, 3, 4, Zoom::new(1, 1));
    assert_eq!(buf.len(), (3 * w * h) as usize);
    let mut lit = Vec::new();
    for py in 0..h {
        for px in 0..w {
            if pixel(&buf, w, px, py) != (0, 0, 0) {
                lit.push((px, py));
            }
        }
    }
    assert_eq!(lit, vec![(w / 2, h / 2)]);
    assert_eq!(pixel(&buf, w, w / 2, h / 2), (255, 255, 255));
}

#[test]
fn zoom_three_plots_inset_square() {
    // at 3 pixels per cell the cell is a 2x2 square inset by one pixel
    // from its corner
    let mut g = Grid::new();
    g.set(cell(0, 0), 2);
    let (w, h) = (9u32, 9u32);
    let buf = g.to_image(w, h, 0, 0, Zoom::new(3, 1));
    // corner: round(0 * 3 + 9/2) = round(4.5) = 5, so offsets 1..=2
    let mut lit = Vec::new();
    for py in 0..h {
        for px in 0..w {
            if pixel(&buf, w, px, py) != (0, 0, 0) {
                lit.push((px, py));
            }
        }
    }
    assert_eq!(lit, vec![(6, 6), (7, 6), (6, 7), (7, 7)]);
    assert_eq!(pixel(&buf, w, 6, 6), (0, 255, 255));
}

#[test]
fn offscreen_cell_is_clipped() {
    let mut g = Grid::new();
    g.set(cell(1000, 1000), 1);
    let buf = g.to_image(4, 4, 0, 0, Zoom::new(1, 1));
    assert!(buf.iter().all(|&b| b == 0));
}

#[test]
fn untouched_pixels_keep_prior_value() {
    let mut g = Grid::new();
    g.set(cell(0, 0), 1);
    let (w, h) = (5u32, 5u32);
    let mut buf = vec![7u8; (3 * w * h) as usize];
    g.render_into(&mut buf, w, h, 0, 0, Zoom::new(1, 1));
    // the cell rounds to pixel (3, 3): round(5/2) rounds half away from
    // zero; every other byte still holds 7
    for py in 0..h {
        for px in 0..w {
            if (px, py) == (3, 3) {
                assert_eq!(pixel(&buf, w, px, py), (255, 255, 255));
            } else {
                assert_eq!(pixel(&buf, w, px, py), (7, 7, 7));
            }
        }
    }
}

#[test]
fn fractional_zoom_merges_cells() {
    // at half a pixel per cell two adjacent cells can land on the same
    // pixel; the buffer must hold the color of one of them
    let mut g = Grid::new();
    g.set(cell(1, 0), 1);
    g.set(cell(2, 0), 2);
    let (w, h) = (4u32, 4u32);
    let buf = g.to_image(w, h, 0, 0, Zoom::new(1, 2));
    // both cells round to pixel (3, 2): x = round(1*0.5 + 2) = 3 (half
    // away from zero) and x = round(2*0.5 + 2) = 3
    let got = pixel(&buf, w, 3, 2);
    assert!(got == (255, 255, 255) || got == (0, 255, 255));
}
