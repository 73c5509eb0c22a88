use asterophage::belt::BeltItem;
use asterophage::belt::BeltPiece;
use asterophage::belt::ConveyorBelt;
use asterophage::grid::GridPosition;
use asterophage::grid::GridRotation;
use asterophage::segment::ConveyorSegment;
use asterophage::segment::WorldPoint;

const SCALE: i64 = 1_000_000;

fn piece(e: u64, x: i32, y: i32) -> BeltPiece {
    BeltPiece { entity: e, grid_rotation: GridRotation::N, grid_position: GridPosition { x, y } }
}

fn two_unit_belt(speed: i64) -> ConveyorBelt {
    ConveyorBelt {
        belt_pieces: vec![piece(1, 0, 0), piece(2, 0, 1), piece(3, 0, 2)],
        items: Vec::new(),
        segments: vec![ConveyorSegment::new(
            WorldPoint { x: 0, z: 0 },
            WorldPoint { x: 0, z: 2_000_000 },
        )],
        belt_speed: speed,
        connected_conveyor_belt: None,
    }
}

fn item_at(e: u64, z: i64, width: i64) -> BeltItem {
    BeltItem {
        item_entity: e,
        position: WorldPoint { x: 0, z },
        segment_progress: 0,
        segment_index: 0,
        item_width: width,
    }
}

#[test]
fn one_tick_advances_by_speed_over_length() {
    // belt speed one unit per second, segment two units long, half a second:
    // a quarter of the segment
    let mut belt = two_unit_belt(1_000_000);
    belt.insert_item(&item_at(7, 0, 200_000)).unwrap();
    let handoffs = belt.advance_items(500_000);
    assert_eq!(handoffs.len(), 0);
    assert_eq!(belt.items.len(), 1);
    assert_eq!(belt.items[0].segment_progress, SCALE / 4);
    assert_eq!(belt.items[0].segment_index, 0);
    // position = start + progress * (end - start)
    assert_eq!(belt.items[0].position, WorldPoint { x: 0, z: 500_000 });
}

#[test]
fn an_item_parks_at_the_unconnected_end() {
    let mut belt = two_unit_belt(1_000_000);
    belt.insert_item(&item_at(7, 1_900_000, 200_000)).unwrap();
    let handoffs = belt.advance_items(10_000_000);
    assert_eq!(handoffs.len(), 0);
    assert_eq!(belt.items[0].segment_progress, SCALE);
    assert_eq!(belt.items[0].position, WorldPoint { x: 0, z: 2_000_000 });
}

#[test]
fn no_passing_under_a_long_tick() {
    let mut belt = two_unit_belt(1_000_000);
    // front item at three quarters, back item close behind
    belt.insert_item(&item_at(10, 1_500_000, 200_000)).unwrap();
    belt.insert_item(&item_at(11, 1_400_000, 200_000)).unwrap();
    assert_eq!(belt.items[0].item_entity, 10);
    // two seconds would carry either item a whole segment
    belt.advance_items(2_000_000);
    let front = belt.items[0];
    let back = belt.items[1];
    assert_eq!(front.item_entity, 10);
    assert_eq!(back.item_entity, 11);
    // the front item parks at the end; the back one stops one width short
    assert_eq!(front.segment_progress, SCALE);
    assert_eq!(back.segment_progress, SCALE - 200_000 * SCALE / 2_000_000);
    assert!(back.segment_progress <= front.segment_progress);
}

#[test]
fn order_is_preserved_tick_over_tick() {
    let mut belt = two_unit_belt(1_000_000);
    belt.insert_item(&item_at(10, 1_200_000, 150_000)).unwrap();
    belt.insert_item(&item_at(11, 800_000, 150_000)).unwrap();
    belt.insert_item(&item_at(12, 200_000, 150_000)).unwrap();
    let mut ticks = 0;
    while ticks < 8 {
        belt.advance_items(400_000);
        // downstream-first order holds after every tick
        let mut i = 0;
        while i + 1 < belt.items.len() {
            let a = belt.items[i];
            let b = belt.items[i + 1];
            assert!(
                a.segment_index > b.segment_index
                    || (a.segment_index == b.segment_index
                        && a.segment_progress >= b.segment_progress)
            );
            i += 1;
        }
        ticks += 1;
    }
}

#[test]
fn overflow_carries_into_the_next_segment() {
    // two segments of one unit each, meeting at the turn
    let mut belt = ConveyorBelt {
        belt_pieces: vec![piece(1, 0, 0), piece(2, 0, 1)],
        items: Vec::new(),
        segments: vec![
            ConveyorSegment::new(WorldPoint { x: 0, z: 0 }, WorldPoint { x: 0, z: 1_000_000 }),
            ConveyorSegment::new(
                WorldPoint { x: 0, z: 1_000_000 },
                WorldPoint { x: 1_000_000, z: 1_000_000 },
            ),
        ],
        belt_speed: 1_000_000,
        connected_conveyor_belt: None,
    };
    belt.insert_item(&item_at(7, 900_000, 100_000)).unwrap();
    // half a second carries the item half a unit: one tenth remains on the
    // first segment, the overflow lands four tenths into the second
    belt.advance_items(500_000);
    assert_eq!(belt.items[0].segment_index, 1);
    assert_eq!(belt.items[0].segment_progress, 400_000);
    assert_eq!(belt.items[0].position, WorldPoint { x: 400_000, z: 1_000_000 });
}

#[test]
fn a_blocked_next_segment_holds_the_item_at_the_boundary() {
    let mut belt = ConveyorBelt {
        belt_pieces: vec![piece(1, 0, 0), piece(2, 0, 1)],
        items: Vec::new(),
        segments: vec![
            ConveyorSegment::new(WorldPoint { x: 0, z: 0 }, WorldPoint { x: 0, z: 1_000_000 }),
            ConveyorSegment::new(
                WorldPoint { x: 0, z: 1_000_000 },
                WorldPoint { x: 0, z: 2_000_000 },
            ),
        ],
        belt_speed: 1_000_000,
        connected_conveyor_belt: None,
    };
    // a wide item parked at the start of the second segment leaves no room
    belt.insert_item(&item_at(20, 1_000_000, 900_000)).unwrap();
    belt.insert_item(&item_at(21, 900_000, 100_000)).unwrap();
    belt.advance_items(200_000);
    let held = belt.items[1];
    assert_eq!(held.item_entity, 21);
    // the trailing item reached its segment's end but could not cross
    assert_eq!(held.segment_index, 0);
    assert_eq!(held.segment_progress, SCALE);
}
