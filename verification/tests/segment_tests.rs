use asterophage::grid::GridRotation;
use asterophage::segment::ConveyorSegment;
use asterophage::segment::WorldPoint;

const SCALE: i64 = 1_000_000;

#[test]
fn new_derives_direction_and_length() {
    let a = WorldPoint { x: 0, z: 0 };
    let b = WorldPoint { x: 0, z: 2_000_000 };
    let seg = ConveyorSegment::new(a, b);
    assert_eq!(seg.start_position(), a);
    assert_eq!(seg.end_position(), b);
    assert_eq!(seg.direction(), GridRotation::N);
    assert_eq!(seg.length(), 2_000_000);
    assert!(!seg.is_connector);

    let back = ConveyorSegment::new(b, a);
    assert_eq!(back.direction(), GridRotation::S);
    assert_eq!(back.length(), 2_000_000);

    let west = ConveyorSegment::new(a, WorldPoint { x: 3_000_000, z: 0 });
    assert_eq!(west.direction(), GridRotation::W);
    let east = ConveyorSegment::new(a, WorldPoint { x: -500_000, z: 0 });
    assert_eq!(east.direction(), GridRotation::E);
    assert_eq!(east.length(), 500_000);
}

#[test]
fn set_endpoints_rebuild_the_segment() {
    let a = WorldPoint { x: 0, z: 0 };
    let b = WorldPoint { x: 0, z: 1_000_000 };
    let mut seg = ConveyorSegment::new(a, b);
    seg.set_end_position(WorldPoint { x: 0, z: 3_000_000 });
    assert_eq!(seg.length(), 3_000_000);
    seg.set_start_position(WorldPoint { x: 0, z: 2_000_000 });
    assert_eq!(seg.length(), 1_000_000);
    assert_eq!(seg.direction(), GridRotation::N);
}

#[test]
fn point_on_segment_respects_span_and_width() {
    let seg = ConveyorSegment::new(
        WorldPoint { x: 0, z: 0 },
        WorldPoint { x: 0, z: 2_000_000 },
    );
    assert!(seg.point_on_segment(WorldPoint { x: 0, z: 0 }));
    assert!(seg.point_on_segment(WorldPoint { x: 0, z: 2_000_000 }));
    assert!(seg.point_on_segment(WorldPoint { x: 4_000, z: 1_000_000 }));
    assert!(!seg.point_on_segment(WorldPoint { x: 6_000, z: 1_000_000 }));
    assert!(!seg.point_on_segment(WorldPoint { x: 0, z: 2_000_001 }));
    assert!(!seg.point_on_segment(WorldPoint { x: 0, z: -1 }));
}

#[test]
fn progress_for_point_clamps_into_unit_range() {
    let seg = ConveyorSegment::new(
        WorldPoint { x: 0, z: 0 },
        WorldPoint { x: 0, z: 2_000_000 },
    );
    // far behind the start: clamped to 0
    assert_eq!(seg.progress_for_point(WorldPoint { x: 0, z: -9_000_000 }), 0);
    // far past the end: clamped to full progress
    assert_eq!(seg.progress_for_point(WorldPoint { x: 0, z: 9_000_000 }), SCALE);
    // interior points project exactly
    assert_eq!(seg.progress_for_point(WorldPoint { x: 0, z: 500_000 }), SCALE / 4);
    assert_eq!(seg.progress_for_point(WorldPoint { x: 0, z: 1_000_000 }), SCALE / 2);
    // a sideways point projects onto the axis
    assert_eq!(seg.progress_for_point(WorldPoint { x: 123, z: 1_000_000 }), SCALE / 2);
}

#[test]
fn position_for_progress_interpolates() {
    let seg = ConveyorSegment::new(
        WorldPoint { x: 0, z: 0 },
        WorldPoint { x: 0, z: 2_000_000 },
    );
    assert_eq!(seg.position_for_progress(0), WorldPoint { x: 0, z: 0 });
    assert_eq!(
        seg.position_for_progress(SCALE),
        WorldPoint { x: 0, z: 2_000_000 }
    );
    assert_eq!(
        seg.position_for_progress(SCALE / 4),
        WorldPoint { x: 0, z: 500_000 }
    );
    let west = ConveyorSegment::new(
        WorldPoint { x: 1_000_000, z: 0 },
        WorldPoint { x: 3_000_000, z: 0 },
    );
    assert_eq!(
        west.position_for_progress(SCALE / 2),
        WorldPoint { x: 2_000_000, z: 0 }
    );
}
