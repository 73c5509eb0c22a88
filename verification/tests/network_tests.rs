use asterophage::belt::BeltError;
use asterophage::belt::BeltItem;
use asterophage::belt::BeltPiece;
use asterophage::belt::ConveyorBelt;
use asterophage::grid::GridPosition;
use asterophage::grid::GridRotation;
use asterophage::network::ConveyorNetwork;
use asterophage::segment::WorldPoint;

const CELL: i64 = 1_000_000;

fn pos(x: i32, y: i32) -> GridPosition {
    GridPosition { x, y }
}

fn three_piece_north_chain() -> (ConveyorNetwork, usize) {
    let mut net = ConveyorNetwork::new(CELL);
    net.place_piece(1, pos(0, 0), GridRotation::N).unwrap();
    net.place_piece(2, pos(0, 1), GridRotation::N).unwrap();
    let c = net.place_piece(3, pos(0, 2), GridRotation::N).unwrap();
    (net, c)
}

#[test]
fn placement_merges_into_one_chain() {
    let (net, c) = three_piece_north_chain();
    let belt = net.get_chain(c).unwrap();
    assert_eq!(belt.belt_pieces.len(), 3);
    assert_eq!(belt.belt_pieces[0].entity, 1);
    assert_eq!(belt.belt_pieces[1].entity, 2);
    assert_eq!(belt.belt_pieces[2].entity, 3);
    // exactly one live chain
    let mut live = 0;
    for i in 0..net.slot_count() {
        if net.get_chain(i).is_some() {
            live += 1;
        }
    }
    assert_eq!(live, 1);
}

#[test]
fn straight_chain_collapses_to_one_segment_of_two_units() {
    let (net, c) = three_piece_north_chain();
    let belt = net.get_chain(c).unwrap();
    // three unit-spaced pieces: one non-connector segment two units long
    assert_eq!(belt.segments.len(), 1);
    let seg = belt.segments[0];
    assert!(!seg.is_connector);
    assert_eq!(seg.length(), 2_000_000);
    assert_eq!(seg.start_position(), WorldPoint { x: 0, z: 0 });
    assert_eq!(seg.end_position(), WorldPoint { x: 0, z: 2_000_000 });
    assert!(belt.connected_conveyor_belt.is_none());
}

#[test]
fn a_turn_starts_a_new_segment() {
    let mut net = ConveyorNetwork::new(CELL);
    net.place_piece(1, pos(0, 0), GridRotation::N).unwrap();
    net.place_piece(2, pos(0, 1), GridRotation::N).unwrap();
    // the chain turns west at (0, 2): merge happens because the turning
    // piece stands ahead of the tail
    let c = net.place_piece(3, pos(0, 2), GridRotation::W).unwrap();
    let belt = net.get_chain(c).unwrap();
    assert_eq!(belt.belt_pieces.len(), 3);
    assert_eq!(belt.segments.len(), 2);
    // the closing segment overshoots the last straight centre by half a cell
    assert_eq!(belt.segments[0].start_position(), WorldPoint { x: 0, z: 0 });
    assert_eq!(
        belt.segments[0].end_position(),
        WorldPoint { x: 0, z: 1_500_000 }
    );
    // the new segment starts at the turning piece's centre
    assert_eq!(
        belt.segments[1].start_position(),
        WorldPoint { x: 0, z: 2_000_000 }
    );
    assert_eq!(
        belt.segments[1].end_position(),
        WorldPoint { x: 0, z: 2_000_000 }
    );
}

#[test]
fn placement_on_an_occupied_cell_is_refused() {
    let (mut net, _) = three_piece_north_chain();
    assert_eq!(
        net.place_piece(9, pos(0, 1), GridRotation::E),
        Err(BeltError::PositionOccupied)
    );
}

#[test]
fn removing_an_unknown_piece_is_refused() {
    let (mut net, _) = three_piece_north_chain();
    assert_eq!(net.remove_piece(42), Err(BeltError::PieceNotFound));
}

#[test]
fn removing_the_middle_piece_splits_the_chain() {
    let (mut net, c) = three_piece_north_chain();
    net.remove_piece(2).unwrap();
    // the chain keeps the prefix, a fresh chain holds the suffix
    let before = net.get_chain(c).unwrap();
    assert_eq!(before.belt_pieces.len(), 1);
    assert_eq!(before.belt_pieces[0].entity, 1);
    let d = net.slot_count() - 1;
    let after = net.get_chain(d).unwrap();
    assert_eq!(after.belt_pieces.len(), 1);
    assert_eq!(after.belt_pieces[0].entity, 3);
    // the removed piece is gone entirely
    assert!(net.chain_with_entity(2).is_none());
}

#[test]
fn removing_head_and_tail_shortens_the_chain() {
    let (mut net, c) = three_piece_north_chain();
    net.remove_piece(1).unwrap();
    let belt = net.get_chain(c).unwrap();
    assert_eq!(belt.belt_pieces.len(), 2);
    assert_eq!(belt.belt_pieces[0].entity, 2);
    net.remove_piece(3).unwrap();
    let belt = net.get_chain(c).unwrap();
    assert_eq!(belt.belt_pieces.len(), 1);
    assert_eq!(belt.belt_pieces[0].entity, 2);
}

#[test]
fn removing_the_last_piece_destroys_the_chain() {
    let mut net = ConveyorNetwork::new(CELL);
    let c = net.place_piece(1, pos(4, 4), GridRotation::E).unwrap();
    assert!(net.get_chain(c).is_some());
    net.remove_piece(1).unwrap();
    assert!(net.get_chain(c).is_none());
    assert!(net.chain_at_position(&pos(4, 4)).is_none());
}

#[test]
fn removal_deletes_items_on_the_removed_cell() {
    let (mut net, c) = three_piece_north_chain();
    {
        let belt = net.chains[c].as_mut().unwrap();
        // one item on the middle cell, one on the first
        belt.insert_item(&BeltItem {
            item_entity: 100,
            position: WorldPoint { x: 0, z: 1_000_000 },
            segment_progress: 0,
            segment_index: 0,
            item_width: 200_000,
        })
        .unwrap();
        belt.insert_item(&BeltItem {
            item_entity: 101,
            position: WorldPoint { x: 0, z: 0 },
            segment_progress: 0,
            segment_index: 0,
            item_width: 200_000,
        })
        .unwrap();
    }
    net.remove_piece(2).unwrap();
    // the item on the removed cell is deleted, the other survives in the prefix
    let before = net.get_chain(c).unwrap();
    assert_eq!(before.items.len(), 1);
    assert_eq!(before.items[0].item_entity, 101);
    let d = net.slot_count() - 1;
    let after = net.get_chain(d).unwrap();
    assert_eq!(after.items.len(), 0);
}

#[test]
fn perpendicular_neighbour_becomes_a_connector_bridge() {
    let mut net = ConveyorNetwork::new(CELL);
    // a westward chain crossing ahead of a single north piece
    net.place_piece(21, pos(-1, 1), GridRotation::W).unwrap();
    net.place_piece(22, pos(0, 1), GridRotation::W).unwrap();
    net.place_piece(23, pos(1, 1), GridRotation::W).unwrap();
    let c = net.place_piece(24, pos(0, 0), GridRotation::N).unwrap();
    let feeder = net.get_chain(c).unwrap();
    // no merge: the chains stay separate, bridged by one connector segment
    assert_eq!(feeder.belt_pieces.len(), 1);
    let west_chain = net.chain_at_position(&pos(-1, 1)).unwrap();
    assert_eq!(feeder.connected_conveyor_belt, Some(west_chain));
    let last = feeder.segments[feeder.segments.len() - 1];
    assert!(last.is_connector);
    assert_eq!(last.start_position(), WorldPoint { x: 0, z: 0 });
    assert_eq!(last.end_position(), WorldPoint { x: 0, z: 1_000_000 });
}

#[test]
fn opposite_facing_pieces_splice_head_to_head() {
    let mut net = ConveyorNetwork::new(CELL);
    // a north piece placed behind a south piece feeds straight into it, so
    // the two splice into one chain
    net.place_piece(31, pos(5, 6), GridRotation::S).unwrap();
    let c = net.place_piece(32, pos(5, 5), GridRotation::N).unwrap();
    let belt = net.get_chain(c).unwrap();
    assert_eq!(belt.belt_pieces.len(), 2);
    assert_eq!(belt.belt_pieces[0].entity, 32);
    assert_eq!(belt.belt_pieces[1].entity, 31);
}

#[test]
fn opposite_rotation_ahead_gets_no_connector() {
    let mut net = ConveyorNetwork::new(CELL);
    // a lone southward piece ahead of a north piece, built directly so that
    // no merge pass runs: opposite facings never bridge
    net.chains.push(Some(ConveyorBelt::new(BeltPiece {
        entity: 31,
        grid_rotation: GridRotation::S,
        grid_position: pos(5, 6),
    })));
    net.chains.push(Some(ConveyorBelt::new(BeltPiece {
        entity: 32,
        grid_rotation: GridRotation::N,
        grid_position: pos(5, 5),
    })));
    net.rebuild_chain_segments(0).unwrap();
    net.rebuild_chain_segments(1).unwrap();
    let feeder = net.get_chain(1).unwrap();
    assert_eq!(feeder.belt_pieces.len(), 1);
    assert!(feeder.connected_conveyor_belt.is_none());
    // a perpendicular facing ahead, by contrast, does bridge
    let spun = net.get_chain(0).unwrap();
    assert!(spun.connected_conveyor_belt.is_none());
}

#[test]
fn hand_off_carries_an_item_across_chains() {
    let mut net = ConveyorNetwork::new(CELL);
    net.place_piece(21, pos(-1, 1), GridRotation::W).unwrap();
    net.place_piece(22, pos(0, 1), GridRotation::W).unwrap();
    net.place_piece(23, pos(1, 1), GridRotation::W).unwrap();
    let c = net.place_piece(24, pos(0, 0), GridRotation::N).unwrap();
    let west_chain = net.chain_at_position(&pos(-1, 1)).unwrap();
    {
        let feeder = net.chains[c].as_mut().unwrap();
        feeder.belt_speed = 1_000_000;
        feeder
            .insert_item(&BeltItem {
                item_entity: 500,
                position: WorldPoint { x: 0, z: 0 },
                segment_progress: 0,
                segment_index: 0,
                item_width: 200_000,
            })
            .unwrap();
    }
    net.conveyor_system(1_000_000);
    // the item crossed onto the west chain, settled at its projection
    assert_eq!(net.get_chain(c).unwrap().items.len(), 0);
    let dest = net.get_chain(west_chain).unwrap();
    assert_eq!(dest.items.len(), 1);
    assert_eq!(dest.items[0].item_entity, 500);
    assert_eq!(dest.items[0].position, WorldPoint { x: 0, z: 1_000_000 });
    assert_eq!(dest.items[0].segment_progress, 500_000);
}

#[test]
fn ticking_an_empty_network_is_harmless() {
    let mut net = ConveyorNetwork::new(CELL);
    net.conveyor_system(1_000_000);
    assert_eq!(net.slot_count(), 0);
}

#[test]
fn a_singleton_chain_has_one_degenerate_segment() {
    let mut net = ConveyorNetwork::new(CELL);
    let c = net.place_piece(1, pos(2, 2), GridRotation::E).unwrap();
    let belt = net.get_chain(c).unwrap();
    assert_eq!(belt.segments.len(), 1);
    assert_eq!(belt.segments[0].length(), 0);
    assert_eq!(
        belt.segments[0].start_position(),
        WorldPoint { x: 2_000_000, z: 2_000_000 }
    );
    // an item on the lone piece immediately parks at the segment's end
    {
        let belt = net.chains[c].as_mut().unwrap();
        belt.insert_item(&BeltItem {
            item_entity: 50,
            position: WorldPoint { x: 2_000_000, z: 2_000_000 },
            segment_progress: 0,
            segment_index: 0,
            item_width: 200_000,
        })
        .unwrap();
    }
    net.conveyor_system(1_000);
    let belt = net.get_chain(c).unwrap();
    assert_eq!(belt.items.len(), 1);
    assert_eq!(belt.items[0].segment_progress, 1_000_000);
}

#[test]
fn hand_off_without_room_is_deferred() {
    let mut net = ConveyorNetwork::new(CELL);
    net.place_piece(21, pos(-1, 1), GridRotation::W).unwrap();
    net.place_piece(22, pos(0, 1), GridRotation::W).unwrap();
    net.place_piece(23, pos(1, 1), GridRotation::W).unwrap();
    let c = net.place_piece(24, pos(0, 0), GridRotation::N).unwrap();
    let west_chain = net.chain_at_position(&pos(-1, 1)).unwrap();
    {
        // an item parked exactly at the crossing, on a stopped destination
        // belt, blocks the transfer
        let dest = net.chains[west_chain].as_mut().unwrap();
        dest.belt_speed = 0;
        dest.insert_item(&BeltItem {
            item_entity: 600,
            position: WorldPoint { x: 0, z: 1_000_000 },
            segment_progress: 0,
            segment_index: 0,
            item_width: 200_000,
        })
        .unwrap();
        let feeder = net.chains[c].as_mut().unwrap();
        feeder.belt_speed = 1_000_000;
        feeder
            .insert_item(&BeltItem {
                item_entity: 601,
                position: WorldPoint { x: 0, z: 0 },
                segment_progress: 0,
                segment_index: 0,
                item_width: 200_000,
            })
            .unwrap();
    }
    net.conveyor_system(1_000_000);
    // the item holds at the boundary, nothing is lost
    assert_eq!(net.get_chain(c).unwrap().items.len(), 1);
    assert_eq!(net.get_chain(c).unwrap().items[0].item_entity, 601);
    assert_eq!(net.get_chain(west_chain).unwrap().items.len(), 1);
}
