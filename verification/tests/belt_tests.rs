use asterophage::belt::BeltError;
use asterophage::belt::BeltItem;
use asterophage::belt::BeltPiece;
use asterophage::belt::ConveyorBelt;
use asterophage::grid::GridPosition;
use asterophage::grid::GridRotation;
use asterophage::segment::ConveyorSegment;
use asterophage::segment::WorldPoint;

const SCALE: i64 = 1_000_000;

fn piece(e: u64, x: i32, y: i32, r: GridRotation) -> BeltPiece {
    BeltPiece { entity: e, grid_rotation: r, grid_position: GridPosition { x, y } }
}

fn straight_belt() -> ConveyorBelt {
    // one straight two-unit segment from the origin north
    let seg = ConveyorSegment::new(
        WorldPoint { x: 0, z: 0 },
        WorldPoint { x: 0, z: 2_000_000 },
    );
    ConveyorBelt {
        belt_pieces: vec![
            piece(1, 0, 0, GridRotation::N),
            piece(2, 0, 1, GridRotation::N),
            piece(3, 0, 2, GridRotation::N),
        ],
        items: Vec::new(),
        segments: vec![seg],
        belt_speed: 1_000_000,
        connected_conveyor_belt: None,
    }
}

fn item_at(e: u64, z: i64) -> BeltItem {
    BeltItem {
        item_entity: e,
        position: WorldPoint { x: 0, z },
        segment_progress: 0,
        segment_index: 0,
        item_width: 200_000,
    }
}

#[test]
fn start_and_end_positions_read_head_and_tail() {
    let b = straight_belt();
    assert_eq!(b.start_position(), GridPosition { x: 0, y: 0 });
    assert_eq!(b.end_position(), GridPosition { x: 0, y: 2 });
}

#[test]
fn connecting_positions_exclude_the_chain_direction() {
    let b = straight_belt();
    let from_start = b.get_connecting_positions_from_start();
    assert_eq!(from_start.len(), 3);
    assert_eq!(from_start[0], GridPosition { x: 1, y: 0 });
    assert_eq!(from_start[1], GridPosition { x: 0, y: -1 });
    assert_eq!(from_start[2], GridPosition { x: -1, y: 0 });
    let from_end = b.get_connecting_positions_from_end();
    assert_eq!(from_end.len(), 3);
    assert_eq!(from_end[0], GridPosition { x: 1, y: 2 });
    assert_eq!(from_end[1], GridPosition { x: 0, y: 3 });
    assert_eq!(from_end[2], GridPosition { x: -1, y: 2 });
}

#[test]
fn connection_predicates_need_strict_alignment() {
    let b = straight_belt();
    // a piece behind the head, pointing into it, can feed the start
    assert!(b.can_connect_to_start_piece(&piece(9, 0, -1, GridRotation::N)));
    // same cell but pointing away: mere proximity is not enough
    assert!(!b.can_connect_to_start_piece(&piece(9, 0, -1, GridRotation::S)));
    // a piece to the head's left pointing into it also feeds the start
    assert!(b.can_connect_to_start_piece(&piece(9, 1, 0, GridRotation::E)));
    // the tail feeds the cell it points at, whatever stands there
    assert!(b.end_piece_can_connect_to(&piece(9, 0, 3, GridRotation::N)));
    assert!(b.end_piece_can_connect_to(&piece(9, 0, 3, GridRotation::W)));
    // the tail does not feed cells it does not point at
    assert!(!b.end_piece_can_connect_to(&piece(9, 1, 2, GridRotation::N)));
}

#[test]
fn get_belt_piece_at_position_finds_first_match() {
    let b = straight_belt();
    let found = b.get_belt_piece_at_position(&GridPosition { x: 0, y: 1 });
    assert_eq!(found.unwrap().entity, 2);
    assert!(b.get_belt_piece_at_position(&GridPosition { x: 5, y: 5 }).is_none());
}

#[test]
fn insert_item_settles_and_orders() {
    let mut b = straight_belt();
    // items inserted out of order end up downstream-first
    b.insert_item(&item_at(10, 500_000)).unwrap();
    b.insert_item(&item_at(11, 1_500_000)).unwrap();
    b.insert_item(&item_at(12, 1_000_000)).unwrap();
    assert_eq!(b.items.len(), 3);
    assert_eq!(b.items[0].item_entity, 11);
    assert_eq!(b.items[0].segment_progress, 3 * SCALE / 4);
    assert_eq!(b.items[1].item_entity, 12);
    assert_eq!(b.items[1].segment_progress, SCALE / 2);
    assert_eq!(b.items[2].item_entity, 10);
    assert_eq!(b.items[2].segment_progress, SCALE / 4);
    assert_eq!(b.items[0].segment_index, 0);
}

#[test]
fn insert_item_off_all_segments_is_refused() {
    let mut b = straight_belt();
    let lost = BeltItem {
        item_entity: 99,
        position: WorldPoint { x: 9_000_000, z: 9_000_000 },
        segment_progress: 0,
        segment_index: 0,
        item_width: 200_000,
    };
    assert_eq!(b.insert_item(&lost), Err(BeltError::ItemOffSegments));
    assert_eq!(b.items.len(), 0);
}

#[test]
fn remove_item_deletes_by_payload_entity() {
    let mut b = straight_belt();
    b.insert_item(&item_at(10, 500_000)).unwrap();
    b.insert_item(&item_at(11, 1_500_000)).unwrap();
    let target = item_at(11, 0);
    b.remove_item(&target);
    assert_eq!(b.items.len(), 1);
    assert_eq!(b.items[0].item_entity, 10);
}

#[test]
fn has_space_at_position_blocks_within_one_width() {
    let mut b = straight_belt();
    b.insert_item(&item_at(10, 1_000_000)).unwrap();
    // right next to the item: blocked
    assert!(!b.has_space_at_position(WorldPoint { x: 0, z: 1_100_000 }, 200_000, None));
    // far away on the same segment: free
    assert!(b.has_space_at_position(WorldPoint { x: 0, z: 300_000 }, 200_000, None));
    // excluding the blocking item itself: free
    assert!(b.has_space_at_position(
        WorldPoint { x: 0, z: 1_100_000 },
        200_000,
        Some(10)
    ));
    // a position on no segment never has space
    assert!(!b.has_space_at_position(WorldPoint { x: 9_000_000, z: 0 }, 200_000, None));
}

#[test]
fn segment_lookup_skips_connectors() {
    let mut b = straight_belt();
    let mut connector = ConveyorSegment::new(
        WorldPoint { x: 0, z: 2_000_000 },
        WorldPoint { x: 0, z: 3_000_000 },
    );
    connector.is_connector = true;
    b.segments.push(connector);
    b.connected_conveyor_belt = Some(7);
    // a point on the connector only: no carrying segment
    assert_eq!(
        b.get_segment_index_for_position(WorldPoint { x: 0, z: 2_500_000 }),
        None
    );
    // a point on the real segment is found there
    assert_eq!(
        b.get_segment_index_for_position(WorldPoint { x: 0, z: 500_000 }),
        Some(0)
    );
}
