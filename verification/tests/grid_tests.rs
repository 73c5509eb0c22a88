use asterophage::grid::GridPosition;
use asterophage::grid::GridRotation;
use asterophage::grid::WorldGrid;

#[test]
fn rotation_bucketing_is_periodic() {
    let full_turn: i64 = 360_000;
    let headings: Vec<i64> = vec![0, 1, 44_999, 45_000, 123_456, 250_000, 314_999, 315_000, -90_000, -1];
    for h in headings {
        assert_eq!(
            GridRotation::from_heading(h),
            GridRotation::from_heading(h + full_turn)
        );
        assert_eq!(
            GridRotation::from_heading(h),
            GridRotation::from_heading(h - full_turn)
        );
    }
}

#[test]
fn rotation_bucketing_windows() {
    assert_eq!(GridRotation::from_heading(0), GridRotation::N);
    assert_eq!(GridRotation::from_heading(44_999), GridRotation::N);
    assert_eq!(GridRotation::from_heading(45_000), GridRotation::W);
    assert_eq!(GridRotation::from_heading(90_000), GridRotation::W);
    assert_eq!(GridRotation::from_heading(134_999), GridRotation::W);
    assert_eq!(GridRotation::from_heading(135_000), GridRotation::S);
    assert_eq!(GridRotation::from_heading(180_000), GridRotation::S);
    assert_eq!(GridRotation::from_heading(224_999), GridRotation::S);
    assert_eq!(GridRotation::from_heading(225_000), GridRotation::E);
    assert_eq!(GridRotation::from_heading(270_000), GridRotation::E);
    assert_eq!(GridRotation::from_heading(314_999), GridRotation::E);
    assert_eq!(GridRotation::from_heading(315_000), GridRotation::N);
    assert_eq!(GridRotation::from_heading(359_999), GridRotation::N);
    assert_eq!(GridRotation::from_heading(-45_000), GridRotation::N);
}

#[test]
fn rotation_differences() {
    assert_eq!(GridRotation::N.difference(GridRotation::S), 2);
    assert_eq!(GridRotation::N.difference(GridRotation::E), 1);
    assert_eq!(GridRotation::N.difference(GridRotation::W), 1);
    assert_eq!(GridRotation::N.difference(GridRotation::N), 0);
    assert_eq!(GridRotation::S.difference(GridRotation::S), 0);
    assert_eq!(GridRotation::W.difference(GridRotation::E), 2);
    assert_eq!(GridRotation::E.difference(GridRotation::W), 2);
    assert_eq!(GridRotation::W.difference(GridRotation::W), 0);
    assert_eq!(GridRotation::E.difference(GridRotation::E), 0);
}

#[test]
fn relative_rotations() {
    assert_eq!(GridRotation::N.get_relative_rotation(GridRotation::E), GridRotation::N);
    assert_eq!(GridRotation::S.get_relative_rotation(GridRotation::W), GridRotation::E);
    assert_eq!(GridRotation::E.get_relative_rotation(GridRotation::E), GridRotation::S);
    assert_eq!(GridRotation::W.get_relative_rotation(GridRotation::E), GridRotation::N);
}

#[test]
fn relative_positions_follow_facing() {
    let p = GridPosition { x: 3, y: -2 };
    assert_eq!(p.get_relative_forward(GridRotation::N), GridPosition { x: 3, y: -1 });
    assert_eq!(p.get_relative_back(GridRotation::N), GridPosition { x: 3, y: -3 });
    assert_eq!(p.get_relative_left(GridRotation::N), GridPosition { x: 4, y: -2 });
    assert_eq!(p.get_relative_right(GridRotation::N), GridPosition { x: 2, y: -2 });
    assert_eq!(p.get_relative_forward(GridRotation::W), GridPosition { x: 4, y: -2 });
    assert_eq!(p.get_relative_forward(GridRotation::E), GridPosition { x: 2, y: -2 });
    assert_eq!(p.get_relative_forward(GridRotation::S), GridPosition { x: 3, y: -3 });
    assert_eq!(p.get_neighbour(GridRotation::W), GridPosition { x: 2, y: -2 });
    let around = p.get_all_surrounding_positions();
    assert_eq!(around.len(), 4);
    assert_eq!(around[0], GridPosition { x: 3, y: -1 });
    assert_eq!(around[1], GridPosition { x: 4, y: -2 });
    assert_eq!(around[2], GridPosition { x: 3, y: -3 });
    assert_eq!(around[3], GridPosition { x: 2, y: -2 });
    assert_eq!(
        p.plus(GridPosition { x: -1, y: 5 }),
        GridPosition { x: 2, y: 3 }
    );
}

#[test]
fn world_grid_conversions() {
    let grid = WorldGrid::new(1_000_000);
    let w = grid.grid_to_world(&GridPosition { x: 2, y: -3 });
    assert_eq!(w, (2_000_000, -3_000_000));

    // cells are half-open bands one cell wide, centred on the centre point
    assert_eq!(
        grid.get_grid_position_from_world_position(0, 0),
        GridPosition { x: 0, y: 0 }
    );
    assert_eq!(
        grid.get_grid_position_from_world_position(499_999, 0),
        GridPosition { x: 0, y: 0 }
    );
    assert_eq!(
        grid.get_grid_position_from_world_position(500_000, 0),
        GridPosition { x: 1, y: 0 }
    );
    assert_eq!(
        grid.get_grid_position_from_world_position(-500_000, 0),
        GridPosition { x: 0, y: 0 }
    );
    assert_eq!(
        grid.get_grid_position_from_world_position(-500_001, 0),
        GridPosition { x: -1, y: 0 }
    );
    assert_eq!(
        grid.get_grid_position_from_world_position(1_700_000, -2_400_000),
        GridPosition { x: 2, y: -2 }
    );
}

#[test]
fn directions_are_unit_axes() {
    assert_eq!(GridRotation::N.get_direction(), (0, 1));
    assert_eq!(GridRotation::S.get_direction(), (0, -1));
    assert_eq!(GridRotation::W.get_direction(), (1, 0));
    assert_eq!(GridRotation::E.get_direction(), (-1, 0));
}
