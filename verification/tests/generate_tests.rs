use generator::anchors::generate_anchors;
use generator::component::{Anchor, Component};
use generator::generate::{get_grid, GenError};
use generator::grid::Grid;
use generator::rng::GridRng;

fn corner_anchors_8x8() -> Vec<Anchor> {
    vec![
        Anchor::new(0, 0, Component::new(2, 2)),
        Anchor::new(6, 0, Component::new(2, 2)),
        Anchor::new(0, 6, Component::new(2, 2)),
        Anchor::new(6, 6, Component::new(2, 2)),
    ]
}

#[test]
fn eight_by_eight_always_yields_valid_grids() {
    // Four 2-by-2 seed anchors in the corners of an 8-by-8 grid: generation
    // must terminate, succeed, stay connected and keep every cage in 2..=9.
    let anchors = corner_anchors_8x8();
    for seed in 0..25u64 {
        let mut rng = GridRng::from_seed(seed);
        let grid = Grid::generate(8, 8, &anchors, &mut rng).expect("generation failed");
        assert!(grid.check_is_connected());
        for (_, _, _, len) in grid.get_cages() {
            assert!((2..=9).contains(&len));
        }
    }
}

#[test]
fn same_seed_reproduces_the_same_grid() {
    let anchors = corner_anchors_8x8();
    let mut rng1 = GridRng::from_seed(12345);
    let mut rng2 = GridRng::from_seed(12345);
    let first = get_grid(8, 8, &anchors, &mut rng1);
    let second = get_grid(8, 8, &anchors, &mut rng2);
    assert_eq!(first, second);
}

#[test]
fn degenerate_anchor_is_unsupported() {
    let anchors = vec![Anchor::new(0, 0, Component::new(1, 2))];
    let mut rng = GridRng::from_seed(0);
    let r = Grid::generate(8, 8, &anchors, &mut rng);
    assert!(matches!(r, Err(GenError::UnsupportedDimensions)));
}

#[test]
fn conflicting_anchors_are_unsupported() {
    let anchors = vec![
        Anchor::new(0, 0, Component::new(2, 2)),
        Anchor::new(0, 0, Component::new(2, 2)),
    ];
    let mut rng = GridRng::from_seed(0);
    let r = Grid::generate(8, 8, &anchors, &mut rng);
    assert!(matches!(r, Err(GenError::UnsupportedDimensions)));
}

#[test]
fn out_of_bounds_anchor_is_unsupported() {
    let anchors = vec![Anchor::new(7, 7, Component::new(2, 2))];
    let mut rng = GridRng::from_seed(0);
    let r = Grid::generate(8, 8, &anchors, &mut rng);
    assert!(matches!(r, Err(GenError::UnsupportedDimensions)));
}

#[test]
fn growth_stalls_when_no_rectangle_can_be_placed() {
    // A 7-by-7 grid bounds the candidate sizes below 2, so nothing can ever
    // be placed, the interior corners never die, and growth stalls.
    let anchors = vec![Anchor::new(2, 2, Component::new(2, 2))];
    let mut rng = GridRng::from_seed(7);
    let r = Grid::generate(7, 7, &anchors, &mut rng);
    assert!(matches!(r, Err(GenError::GrowthStalled)));
}

#[test]
fn test_volume() {
    let anchors = generate_anchors((20, 20), (5, 5), (3, 3));
    for seed in 0..100u64 {
        let mut rng = GridRng::from_seed(seed);
        let _grid = Grid::generate(20, 20, &anchors, &mut rng);
    }
}

#[test]
fn picked_indices_stay_in_range() {
    let mut rng = GridRng::from_seed(99);
    for _ in 0..200 {
        assert!(rng.pick_index(3) < 3);
    }
    assert_eq!(rng.pick_index(1), 0);
}

#[test]
fn shuffle_keeps_the_same_elements() {
    let mut rng = GridRng::from_seed(5);
    let before: Vec<u8> = vec![2, 3, 4, 5, 6, 7, 8, 9];
    let mut shuffled = before.clone();
    rng.shuffle_u8(&mut shuffled);
    let mut sorted = shuffled.clone();
    sorted.sort();
    assert_eq!(sorted, before);
}

#[test]
fn get_grid_has_requested_shape() {
    let anchors = corner_anchors_8x8();
    let mut rng = GridRng::from_seed(3);
    let grid = get_grid(8, 8, &anchors, &mut rng).expect("generation failed");
    assert_eq!(grid.len(), 8);
    for row in &grid {
        assert_eq!(row.len(), 8);
    }
    // The seed anchors leave their corner cells fillable.
    assert!(grid[0][0]);
    assert!(grid[7][7]);
}

#[test]
fn empty_anchor_set_generates_an_empty_grid() {
    // With no anchors there are no corners to grow from: the outcome is
    // deterministic and succeeds with an all-blocked grid.
    let anchors: Vec<Anchor> = Vec::new();
    let mut rng = GridRng::from_seed(41);
    let grid = get_grid(4, 4, &anchors, &mut rng).expect("generation failed");
    for row in &grid {
        assert_eq!(row, &vec![false, false, false, false]);
    }
}
