//! Tests of the generation step: aging, births, survivals, and
//! insensitivity to insertion order.

use sparse_life::grid::Grid;
use sparse_life::position::Position;

fn cell(x: i32, y: i32) -> Position {
    Position::new(x, y)
}

#[test]
fn isolated_cell_ages_by_one() {
    let mut g = Grid::new();
    g.set(cell(0, 0), 1);
    let n = g.next();
    assert_eq!(n.len(), 1);
    assert_eq!(n.get(cell(0, 0)), Some(2));
}

#[test]
fn isolated_cell_dies_at_the_cap() {
    let mut g = Grid::new();
    g.set(cell(7, -3), 1);
    // counter grows by exactly one per step: 1 -> 2 -> ... -> 100
    for expected in 2..=100u32 {
        g = g.next();
        assert_eq!(g.len(), 1);
        assert_eq!(g.get(cell(7, -3)), Some(expected));
    }
    // the step after reaching the cap removes the cell
    g = g.next();
    assert_eq!(g.len(), 0);
    assert_eq!(g.get(cell(7, -3)), None);
}

#[test]
fn cap_cell_removed_even_alone() {
    let mut g = Grid::new();
    g.set(cell(1, 1), 100);
    let n = g.next();
    assert_eq!(n.len(), 0);
}

#[test]
fn l_shape_produces_block() {
    // Three fresh cells in an L: (0,0), (1,0), (0,1).
    // Neighbor counts of fresh cells: (1,1) sees all three -> birth;
    // each of the three sees the other two -> survival at counter 1.
    let mut g = Grid::new();
    g.set(cell(0, 0), 1);
    g.set(cell(1, 0), 1);
    g.set(cell(0, 1), 1);
    let n = g.next();
    assert_eq!(n.len(), 4);
    assert_eq!(n.get(cell(0, 0)), Some(1));
    assert_eq!(n.get(cell(1, 0)), Some(1));
    assert_eq!(n.get(cell(0, 1)), Some(1));
    assert_eq!(n.get(cell(1, 1)), Some(1));
    assert_eq!(n.get(cell(-1, 0)), None);
    assert_eq!(n.get(cell(1, -1)), None);
}

#[test]
fn blinker_row_births_and_aging() {
    // A row of three fresh cells: the middle survives at 1, the ends age
    // to 2, and the two points seeing all three are born.
    let mut g = Grid::new();
    g.set(cell(0, 0), 1);
    g.set(cell(1, 0), 1);
    g.set(cell(2, 0), 1);
    let n = g.next();
    assert_eq!(n.len(), 5);
    assert_eq!(n.get(cell(1, 1)), Some(1));
    assert_eq!(n.get(cell(1, -1)), Some(1));
    assert_eq!(n.get(cell(1, 0)), Some(1));
    assert_eq!(n.get(cell(0, 0)), Some(2));
    assert_eq!(n.get(cell(2, 0)), Some(2));
}

#[test]
fn three_neighbors_overwrite_any_counter() {
    // (5,5) holds an aged counter and sees exactly three fresh cells:
    // it is re-inserted with counter 1, not its aged value.
    let mut g = Grid::new();
    g.set(cell(5, 5), 7);
    g.set(cell(4, 4), 1);
    g.set(cell(4, 5), 1);
    g.set(cell(4, 6), 1);
    let n = g.next();
    assert_eq!(n.get(cell(5, 5)), Some(1));
    // (3,5) also sees all three and was absent: born with counter 1
    assert_eq!(n.get(cell(3, 5)), Some(1));
}

#[test]
fn two_neighbors_do_not_revive_aged_cell() {
    // (5,5) holds counter 2 and sees exactly two fresh cells: the
    // survival branch requires counter exactly 1, so it only ages.
    let mut g = Grid::new();
    g.set(cell(5, 5), 2);
    g.set(cell(4, 4), 1);
    g.set(cell(4, 5), 1);
    let n = g.next();
    assert_eq!(n.get(cell(5, 5)), Some(3));
}

#[test]
fn two_neighbors_keep_fresh_cell_fresh() {
    let mut g = Grid::new();
    g.set(cell(5, 5), 1);
    g.set(cell(4, 4), 1);
    g.set(cell(4, 5), 1);
    let n = g.next();
    assert_eq!(n.get(cell(5, 5)), Some(1));
}

#[test]
fn aged_cells_do_not_count_as_neighbors() {
    // (5,5) is fresh; its three neighbors all carry counter 2, so its
    // neighbor count is 0 and it merely ages.
    let mut g = Grid::new();
    g.set(cell(5, 5), 1);
    g.set(cell(4, 4), 2);
    g.set(cell(4, 5), 2);
    g.set(cell(4, 6), 2);
    let n = g.next();
    assert_eq!(n.get(cell(5, 5)), Some(2));
    assert_eq!(n.get(cell(3, 5)), None);
}

#[test]
fn step_ignores_insertion_order() {
    let cells = [
        (cell(0, 0), 1),
        (cell(1, 0), 1),
        (cell(0, 1), 1),
        (cell(9, 9), 4),
        (cell(-3, 2), 1),
        (cell(-4, 2), 1),
    ];
    let mut g1 = Grid::new();
    for (p, v) in cells.iter() {
        g1.set(*p, *v);
    }
    let mut g2 = Grid::new();
    for (p, v) in cells.iter().rev() {
        g2.set(*p, *v);
    }
    let n1 = g1.next();
    let n2 = g2.next();
    assert_eq!(n1.len(), n2.len());
    for (p, v) in n1.cells.iter() {
        assert_eq!(n2.get(*p), Some(*v));
    }
}

#[test]
fn set_overwrites_in_place() {
    let mut g = Grid::new();
    g.set(cell(2, 2), 1);
    g.set(cell(2, 2), 50);
    assert_eq!(g.len(), 1);
    assert_eq!(g.get(cell(2, 2)), Some(50));
}

#[test]
fn position_keys_are_distinct() {
    assert_eq!(cell(1, 2).key(), cell(1, 2).key());
    assert_ne!(cell(1, 2).key(), cell(2, 1).key());
    assert_ne!(cell(-1, 0).key(), cell(0, -1).key());
    assert_ne!(cell(0, -1).key(), cell(0, 1).key());
}
