//! Tests of the seed-text loader.

use sparse_life::grid::Grid;
use sparse_life::position::Position;
use sparse_life::seed::SeedError;

fn cell(x: i32, y: i32) -> Position {
    Position::new(x, y)
}

#[test]
fn two_cells_on_a_diagonal() {
    let g = Grid::from_seed(b"#P 0 0\n*.\n.*").unwrap();
    assert_eq!(g.len(), 2);
    assert_eq!(g.get(cell(0, 0)), Some(1));
    assert_eq!(g.get(cell(1, 1)), Some(1));
    assert_eq!(g.get(cell(1, 0)), None);
    assert_eq!(g.get(cell(0, 1)), None);
}

#[test]
fn empty_input_is_an_empty_grid() {
    let g = Grid::from_seed(b"").unwrap();
    assert_eq!(g.len(), 0);
}

#[test]
fn text_before_the_first_marker_is_ignored() {
    let g = Grid::from_seed(b"a comment line\n#P 1 2\n*").unwrap();
    assert_eq!(g.len(), 1);
    assert_eq!(g.get(cell(1, 2)), Some(1));
}

#[test]
fn origin_offsets_all_cells() {
    let g = Grid::from_seed(b"#P -2 -3\n..*\n*").unwrap();
    assert_eq!(g.len(), 2);
    assert_eq!(g.get(cell(0, -3)), Some(1));
    assert_eq!(g.get(cell(-2, -2)), Some(1));
}

#[test]
fn non_star_characters_are_ignored() {
    let g = Grid::from_seed(b"#P 0 0\n.x *o\n").unwrap();
    assert_eq!(g.len(), 1);
    assert_eq!(g.get(cell(3, 0)), Some(1));
}

#[test]
fn several_blocks_accumulate() {
    let g = Grid::from_seed(b"#P 0 0\n*\n#P 10 10\n*").unwrap();
    assert_eq!(g.len(), 2);
    assert_eq!(g.get(cell(0, 0)), Some(1));
    assert_eq!(g.get(cell(10, 10)), Some(1));
}

#[test]
fn overlapping_blocks_keep_counter_one() {
    let g = Grid::from_seed(b"#P 0 0\n*\n#P 0 0\n*").unwrap();
    assert_eq!(g.len(), 1);
    assert_eq!(g.get(cell(0, 0)), Some(1));
}

#[test]
fn crlf_origin_line_parses() {
    let g = Grid::from_seed(b"#P 0 0\r\n*").unwrap();
    assert_eq!(g.len(), 1);
    assert_eq!(g.get(cell(0, 0)), Some(1));
}

#[test]
fn signed_origin_tokens_parse() {
    let g = Grid::from_seed(b"#P +3 -4\n*").unwrap();
    assert_eq!(g.get(cell(3, -4)), Some(1));
}

#[test]
fn non_integer_origin_is_fatal() {
    assert_eq!(Grid::from_seed(b"#P a 0\n*").unwrap_err(), SeedError::BadOrigin);
    assert_eq!(Grid::from_seed(b"#P 0 4x\n*").unwrap_err(), SeedError::BadOrigin);
}

#[test]
fn missing_origin_fields_are_fatal() {
    assert_eq!(Grid::from_seed(b"#P").unwrap_err(), SeedError::BadOrigin);
    assert_eq!(Grid::from_seed(b"#P\n*").unwrap_err(), SeedError::BadOrigin);
    assert_eq!(Grid::from_seed(b"#P 5\n*").unwrap_err(), SeedError::BadOrigin);
}

#[test]
fn origin_out_of_32_bit_range_is_fatal() {
    assert_eq!(
        Grid::from_seed(b"#P 2147483648 0\n*").unwrap_err(),
        SeedError::BadOrigin
    );
    // the extremes themselves are fine
    let g = Grid::from_seed(b"#P 2147483647 -2147483648\n*").unwrap();
    assert_eq!(g.get(cell(2147483647, -2147483648)), Some(1));
}

#[test]
fn a_bad_block_fails_the_whole_load() {
    assert_eq!(
        Grid::from_seed(b"#P 0 0\n*\n#P oops\n*").unwrap_err(),
        SeedError::BadOrigin
    );
}

#[test]
fn unrepresentable_cell_is_fatal() {
    assert_eq!(
        Grid::from_seed(b"#P 2147483647 0\n.*").unwrap_err(),
        SeedError::CoordinateOverflow
    );
}

#[test]
fn seed_then_step() {
    // the L-shaped seed steps to the 2x2 block
    let g = Grid::from_seed(b"#P 0 0\n**\n*.").unwrap();
    let n = g.next();
    assert_eq!(n.len(), 4);
    for (x, y) in [(0, 0), (1, 0), (0, 1), (1, 1)] {
        assert_eq!(n.get(cell(x, y)), Some(1));
    }
}
