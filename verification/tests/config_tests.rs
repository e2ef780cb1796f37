use generator::anchors::generate_anchors;
use generator::cell::CornerDir;
use generator::component::{Anchor, Component};
use generator::defaults::{components, Connector};

fn anchor(x: u8, y: u8, w: u8, h: u8) -> Anchor {
    Anchor::new(x, y, Component::new(w, h))
}

#[test]
fn test() {
    let anchors_8x8_1 = generate_anchors((8, 8), (2, 2), (2, 2));
    let anchors_8x8_2 = generate_anchors((8, 8), (2, 2), (3, 3));
    let anchors_20x20 = generate_anchors((20, 20), (5, 5), (3, 3));

    let expected_8x8_1 = vec![
        anchor(0, 0, 2, 2),
        anchor(6, 0, 2, 2),
        anchor(0, 6, 2, 2),
        anchor(6, 6, 2, 2),
    ];
    let expected_8x8_2 = vec![
        anchor(0, 0, 2, 2),
        anchor(3, 0, 2, 2),
        anchor(6, 0, 2, 2),
        anchor(0, 3, 2, 2),
        anchor(3, 3, 2, 2),
        anchor(6, 3, 2, 2),
        anchor(0, 6, 2, 2),
        anchor(3, 6, 2, 2),
        anchor(6, 6, 2, 2),
    ];
    let expected_20x20 = vec![
        anchor(0, 0, 5, 5),
        anchor(7, 0, 5, 5),
        anchor(15, 0, 5, 5),
        anchor(0, 7, 5, 5),
        anchor(7, 7, 5, 5),
        anchor(15, 7, 5, 5),
        anchor(0, 15, 5, 5),
        anchor(7, 15, 5, 5),
        anchor(15, 15, 5, 5),
    ];

    assert_eq!(anchors_8x8_1, expected_8x8_1);
    assert_eq!(anchors_8x8_2, expected_8x8_2);
    assert_eq!(anchors_20x20, expected_20x20);
}

#[test]
fn check_corners() {
    for component in components() {
        for corner in component.corners {
            assert!(corner.pos.0 == 0 || corner.pos.0 == component.width - 1);
            assert!(corner.pos.1 == 0 || corner.pos.1 == component.height - 1);
        }
    }
}

#[test]
fn connector_diffs_orient_and_transpose() {
    // A symmetric offset gives one diff; an asymmetric one also gives its
    // transpose, both oriented toward the corner's quadrant.
    assert_eq!(Connector::Merged.get_all_diffs(CornerDir::TopLeft), vec![(0, 0)]);
    assert_eq!(Connector::OneCell.get_all_diffs(CornerDir::BotRight), vec![(1, 1)]);
    assert_eq!(
        Connector::TwoCell.get_all_diffs(CornerDir::TopRight),
        vec![(2, -1), (1, -2)]
    );
    assert_eq!(
        Connector::Direct.get_all_diffs(CornerDir::BotLeft),
        vec![(-1, 0), (0, 1)]
    );
}
