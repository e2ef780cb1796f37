use generator::cages::any_cage_outside;
use generator::cell::{CornerDir, GGCell};
use generator::component::Component;
use generator::grid::Grid;

fn blank_row(width: usize) -> Vec<GGCell> {
    vec![GGCell::Uninitialized; width]
}

#[test]
fn try_place_rejection_leaves_grid_untouched() {
    let mut grid = Grid::new(8, 8);
    assert!(grid.try_place_component(0, 0, Component::new(2, 2)));

    let before = grid.rows.clone();
    // Overlaps the 2-by-2 block without meeting any corner opposite, so the
    // placement must be rejected and the grid must be byte-for-byte intact.
    assert!(!grid.try_place_component(1, 0, Component::new(2, 2)));
    assert_eq!(grid.rows, before);
}

#[test]
fn corner_fusion_is_order_independent() {
    // A 2-by-2 at the origin and a 2-by-2 whose top-left corner lands on the
    // first one's bottom-right corner: both orders must succeed, agree cell
    // for cell, and fuse the shared corner.
    let mut first_then_second = Grid::new(8, 8);
    assert!(first_then_second.try_place_component(0, 0, Component::new(2, 2)));
    assert!(first_then_second.try_place_component(1, 1, Component::new(2, 2)));

    let mut second_then_first = Grid::new(8, 8);
    assert!(second_then_first.try_place_component(1, 1, Component::new(2, 2)));
    assert!(second_then_first.try_place_component(0, 0, Component::new(2, 2)));

    assert_eq!(first_then_second.rows, second_then_first.rows);
    assert_eq!(first_then_second.rows[1][1], GGCell::FusedCorner);
    assert_eq!(first_then_second.rows[0][0], GGCell::Corner(CornerDir::TopLeft));
}

#[test]
fn isolated_cell_is_not_connected() {
    // One fillable cell sits alone, unreachable from the main block.
    let mut rows = vec![blank_row(4), blank_row(4), blank_row(4), blank_row(4)];
    rows[0][0] = GGCell::Normal;
    rows[0][1] = GGCell::Normal;
    rows[1][0] = GGCell::Normal;
    rows[3][3] = GGCell::Normal;
    let grid = Grid { width: 4, height: 4, rows };
    assert!(!grid.check_is_connected());
}

#[test]
fn single_block_is_connected() {
    let mut grid = Grid::new(6, 6);
    assert!(grid.try_place_component(2, 2, Component::new(3, 3)));
    assert!(grid.check_is_connected());
}

#[test]
fn cages_are_maximal_runs() {
    // One row: two fillable cells, a blocker, then three fillable cells.
    let mut row = blank_row(6);
    row[0] = GGCell::Normal;
    row[1] = GGCell::Normal;
    row[2] = GGCell::Blocked;
    row[3] = GGCell::Normal;
    row[4] = GGCell::Normal;
    row[5] = GGCell::Normal;
    let grid = Grid { width: 6, height: 1, rows: vec![row] };

    let cages = grid.get_cages();
    let expected = vec![
        (0u8, 0u8, false, 2usize),
        (3, 0, false, 3),
        (0, 0, true, 1),
        (1, 0, true, 1),
        (3, 0, true, 1),
        (4, 0, true, 1),
        (5, 0, true, 1),
    ];
    assert_eq!(cages, expected);
}

#[test]
fn lone_cell_cage_cannot_be_repaired() {
    // A single fillable cell on a 1-by-1 grid has nowhere to merge, so the
    // repair pass leaves a cage of length 1 behind.
    let mut grid = Grid { width: 1, height: 1, rows: vec![vec![GGCell::Normal]] };
    grid.fix_up();
    let cages = grid.get_cages();
    assert!(any_cage_outside(&cages, 2, 9));
}

#[test]
fn fillable_count_and_mask() {
    let mut grid = Grid::new(5, 4);
    assert_eq!(grid.get_fillable_cell_count(), 0);
    assert!(grid.try_place_component(0, 0, Component::new(3, 2)));
    assert_eq!(grid.get_fillable_cell_count(), 6);
    assert!(!grid.get_cell_fillable(4, 3));
    assert!(grid.get_cell_fillable(1, 1));

    let mask = grid.to_bool_vec();
    assert_eq!(mask.len(), 4);
    assert_eq!(mask[0], vec![true, true, true, false, false]);
    assert_eq!(mask[3], vec![false, false, false, false, false]);
}

#[test]
fn overlong_row_is_chopped_within_bounds() {
    // A single 12-cell row: the split pass can only block end cells without
    // disconnecting the run, and chips it down until no row cage exceeds 9.
    let mut grid = Grid { width: 12, height: 1, rows: vec![vec![GGCell::Normal; 12]] };
    grid.fix_up();
    let cages = grid.get_cages();
    assert!(!cages.iter().any(|c| !c.2 && c.3 > 9));
    assert!(cages.iter().any(|c| !c.2 && (2..=9).contains(&c.3)));
    assert!(grid.check_is_connected());
}
