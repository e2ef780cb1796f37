use generator::cell::{CornerDir, GGCell};
use generator::component::{Component, Corner};

#[test]
fn grid_gen_test_component_get_cells() {
    let component = Component::new(5, 5);

    let u = GGCell::Uninitialized;
    let n = GGCell::Normal;
    let b = GGCell::Blocked;
    let tl = GGCell::Corner(CornerDir::TopLeft);
    let tr = GGCell::Corner(CornerDir::TopRight);
    let bl = GGCell::Corner(CornerDir::BotLeft);
    let br = GGCell::Corner(CornerDir::BotRight);

    let expected = vec![
        vec![u, u, u, b, u, u, u],
        vec![u, tl, n, n, n, tr, u],
        vec![u, n, n, n, n, n, u],
        vec![b, n, n, n, n, n, b],
        vec![u, n, n, n, n, n, u],
        vec![u, bl, n, n, n, br, u],
        vec![u, u, u, b, u, u, u],
    ];

    assert_eq!(component.get_cells(), expected);
}

#[test]
fn generator_test_get_pos_from_corner() {
    let component = Component::new(5, 5);
    let corner1 = Corner::new(3, 8, CornerDir::BotLeft);
    let corner2 = Corner::new(9, 8, CornerDir::BotRight);

    let res1 = component.get_pos_from_corner(corner1);
    let res2 = component.get_pos_from_corner(corner2);

    assert_eq!(res1, (3, 4));
    assert_eq!(res2, (5, 4));
}

#[test]
fn grid_gen_test_get_pos_from_corner() {
    let component = Component::new(5, 5);
    let corner1 = Corner::new(3, 8, CornerDir::BotLeft);
    let corner2 = Corner::new(9, 8, CornerDir::BotRight);

    let res1 = component.get_pos_from_corner(corner1);
    let res2 = component.get_pos_from_corner(corner2);

    assert_eq!(res1, (3, 4));
    assert_eq!(res2, (5, 4));
}

#[test]
fn generator_test_generate_corners() {
    let component = Component::new(5, 5);

    let res = Corner::generate_corners(3, 3, component);
    let expected = [
        Corner::new(3, 3, CornerDir::TopLeft),
        Corner::new(7, 3, CornerDir::TopRight),
        Corner::new(3, 7, CornerDir::BotLeft),
        Corner::new(7, 7, CornerDir::BotRight),
    ];

    assert_eq!(res, expected);
}

#[test]
fn grid_gen_test_generate_corners() {
    let component = Component::new(5, 5);

    let res = Corner::generate_corners(3, 3, component);
    let expected = [
        Corner::new(3, 3, CornerDir::TopLeft),
        Corner::new(7, 3, CornerDir::TopRight),
        Corner::new(3, 7, CornerDir::BotLeft),
        Corner::new(7, 7, CornerDir::BotRight),
    ];

    assert_eq!(res, expected);
}

#[test]
fn five_by_five_pattern_census() {
    // The 5-by-5 pattern has exactly four corner cells, exactly one blocked
    // cell centred on each of its four sides, and plain fillable cells
    // everywhere else inside the rectangle.
    let component = Component::new(5, 5);
    let cells = component.get_cells();

    let mut corners = 0;
    let mut blocked = Vec::new();
    let mut normal = 0;
    for (y, row) in cells.iter().enumerate() {
        for (x, cell) in row.iter().enumerate() {
            match cell {
                GGCell::Corner(_) => corners += 1,
                GGCell::Blocked => blocked.push((x, y)),
                GGCell::Normal => normal += 1,
                _ => {}
            }
        }
    }

    assert_eq!(corners, 4);
    assert_eq!(blocked, vec![(3, 0), (0, 3), (6, 3), (3, 6)]);
    assert_eq!(normal, 5 * 5 - 4);
}
