//! Belt pieces, transported items, and the conveyor chain aggregate.
//!
//! A `ConveyorBelt` owns an ordered list of placed pieces (index `0` is the
//! chain head, the last index its tail; items flow head to tail), the
//! geometric segments derived from those pieces, and the items currently on
//! the chain.  The item list is kept ordered so that the item closest to the
//! chain's downstream end comes first; the per-tick simulator relies on that
//! order for its no-passing reservation scheme.

use vstd::prelude::*;

use crate::grid::GridPosition;
use crate::grid::GridRotation;
use crate::grid::back_of;
use crate::grid::forward_of;
use crate::grid::left_of;
use crate::grid::pos_in_grid_range;
use crate::grid::pos_in_step_range;
use crate::grid::right_of;
use crate::segment::ConveyorSegment;
use crate::segment::WorldPoint;
use crate::segment::on_segment;
use crate::segment::point_in_world_range;
use crate::segment::progress_of;
use crate::segment::seg_wf;
use crate::units::MAX_ITEM_WIDTH;
use crate::units::MAX_SPEED;
use crate::units::SCALE;

verus! {

/// What a chain operation reports when it cannot do its work.
///
/// `ItemOffSegments` is the fatal desynchronization of spec-level geometry:
/// an item's cached position lies on no segment of the chain that is meant
/// to carry it.  `PositionOccupied` and `PieceNotFound` reject placement on
/// a taken cell and removal of an unknown piece.
#[derive(Clone, Copy, PartialEq, Eq, Structural, Debug)]
pub enum BeltError {
    ItemOffSegments,
    PositionOccupied,
    PieceNotFound,
}

/// One placed belt piece: the placed entity it stands for, and where it
/// stands and faces.  The authoritative copy lives in its chain's piece
/// list.
#[derive(Clone, Copy, PartialEq, Eq, Structural, Debug)]
pub struct BeltPiece {
    pub entity: u64,
    pub grid_rotation: GridRotation,
    pub grid_position: GridPosition,
}

impl BeltPiece {
    /// The cell ahead of this piece.
    pub fn relative_forward_position(&self) -> (r: GridPosition)
        requires
            pos_in_step_range(self.grid_position),
        ensures
            r == forward_of(self.grid_position, self.grid_rotation),
    {
        self.grid_position.get_relative_forward(self.grid_rotation)
    }

    /// The cell behind this piece.
    pub fn relative_back_position(&self) -> (r: GridPosition)
        requires
            pos_in_step_range(self.grid_position),
        ensures
            r == back_of(self.grid_position, self.grid_rotation),
    {
        self.grid_position.get_relative_back(self.grid_rotation)
    }

    /// The cell to this piece's left.
    pub fn relative_left_position(&self) -> (r: GridPosition)
        requires
            pos_in_step_range(self.grid_position),
        ensures
            r == left_of(self.grid_position, self.grid_rotation),
    {
        self.grid_position.get_relative_left(self.grid_rotation)
    }

    /// The cell to this piece's right.
    pub fn relative_right_position(&self) -> (r: GridPosition)
        requires
            pos_in_step_range(self.grid_position),
        ensures
            r == right_of(self.grid_position, self.grid_rotation),
    {
        self.grid_position.get_relative_right(self.grid_rotation)
    }
}

/// One item riding a chain: its payload entity, its cached world position
/// (the sole output the renderer consumes), which segment carries it and how
/// far along it is, and how much room it claims.
#[derive(Clone, Copy, PartialEq, Eq, Structural, Debug)]
pub struct BeltItem {
    pub item_entity: u64,
    pub position: WorldPoint,
    pub segment_progress: i64,
    pub segment_index: usize,
    pub item_width: i64,
}

/// Downstream-first order: `a` rides no earlier than `b` when `a` sits on a
/// later segment, or on the same segment at no smaller progress.
pub open spec fn item_at_or_after(a: BeltItem, b: BeltItem) -> bool {
    ||| a.segment_index > b.segment_index
    ||| (a.segment_index == b.segment_index && a.segment_progress >= b.segment_progress)
}

/// The maintained order of a chain's item list: the closest to the
/// downstream end first.
pub open spec fn items_ordered(items: Seq<BeltItem>) -> bool {
    forall|i: int, j: int|
        0 <= i < j < items.len() ==> item_at_or_after(#[trigger] items[i], #[trigger] items[j])
}

/// An item consistent with a segment list: it rides an existing
/// non-connector segment, its progress and width are in range, and its
/// cached position is representable.
pub open spec fn item_wf(item: BeltItem, segments: Seq<ConveyorSegment>) -> bool {
    &&& item.segment_index < segments.len()
    &&& !segments[item.segment_index as int].is_connector
    &&& 0 <= item.segment_progress <= SCALE
    &&& 0 < item.item_width <= MAX_ITEM_WIDTH
    &&& point_in_world_range(item.position)
}

/// A well-formed segment list: every segment well-formed, and a connector
/// only ever the last entry.
pub open spec fn segments_wf(segments: Seq<ConveyorSegment>) -> bool {
    &&& forall|i: int| 0 <= i < segments.len() ==> seg_wf(#[trigger] segments[i])
    &&& forall|i: int| 0 <= i < segments.len() - 1 ==> !(#[trigger] segments[i]).is_connector
}

/// A well-formed piece list: every piece on a cell the world conversion
/// accepts.
pub open spec fn pieces_wf(pieces: Seq<BeltPiece>) -> bool {
    forall|i: int| 0 <= i < pieces.len() ==> pos_in_grid_range((#[trigger] pieces[i]).grid_position)
}

/// One conveyor chain: ordered pieces, derived segments, carried items, its
/// speed, and the chain items hand off into when the geometry allows it.
#[derive(Debug)]
pub struct ConveyorBelt {
    pub belt_pieces: Vec<BeltPiece>,
    pub items: Vec<BeltItem>,
    pub segments: Vec<ConveyorSegment>,
    pub belt_speed: i64,
    pub connected_conveyor_belt: Option<usize>,
}

/// The chain invariant every public operation preserves.
pub open spec fn belt_inv(b: ConveyorBelt) -> bool {
    &&& pieces_wf(b.belt_pieces@)
    &&& segments_wf(b.segments@)
    &&& forall|i: int| 0 <= i < b.items@.len() ==> item_wf(#[trigger] b.items@[i], b.segments@)
    &&& items_ordered(b.items@)
    &&& 0 <= b.belt_speed <= MAX_SPEED
    &&& (b.connected_conveyor_belt.is_some() <==> (b.segments@.len() > 0 && b.segments@.last().is_connector))
}

/// Default speed of a freshly spawned chain, in micro-units per second.
pub const DEFAULT_BELT_SPEED: i64 = 2_500_000;

impl ConveyorBelt {
    /// A fresh singleton chain around one just-placed piece: no items, no
    /// segments yet, the default speed, and no connected chain.
    pub fn new(belt_piece: BeltPiece) -> (r: ConveyorBelt)
        requires
            pos_in_grid_range(belt_piece.grid_position),
        ensures
            r.belt_pieces@ == seq![belt_piece],
            r.items@ == Seq::<BeltItem>::empty(),
            r.segments@ == Seq::<ConveyorSegment>::empty(),
            r.belt_speed == DEFAULT_BELT_SPEED,
            r.connected_conveyor_belt.is_none(),
            belt_inv(r),
    {
        let mut pieces: Vec<BeltPiece> = Vec::new();
        pieces.push(belt_piece);
        proof {
            assert(pieces@ =~= seq![belt_piece]);
        }
        ConveyorBelt {
            belt_pieces: pieces,
            items: Vec::new(),
            segments: Vec::new(),
            belt_speed: DEFAULT_BELT_SPEED,
            connected_conveyor_belt: None,
        }
    }

    /// The head piece's cell; the origin cell if the chain is empty (which
    /// a live chain never is).
    pub fn start_position(&self) -> (r: GridPosition)
        ensures
            self.belt_pieces@.len() > 0 ==> r == self.belt_pieces@[0].grid_position,
            self.belt_pieces@.len() == 0 ==> r == (GridPosition { x: 0, y: 0 }),
    {
        if self.belt_pieces.len() == 0 {
            GridPosition { x: 0, y: 0 }
        } else {
            self.belt_pieces[0].grid_position
        }
    }

    /// The tail piece's cell; the origin cell if the chain is empty.
    pub fn end_position(&self) -> (r: GridPosition)
        ensures
            self.belt_pieces@.len() > 0 ==> r == self.belt_pieces@.last().grid_position,
            self.belt_pieces@.len() == 0 ==> r == (GridPosition { x: 0, y: 0 }),
    {
        if self.belt_pieces.len() == 0 {
            GridPosition { x: 0, y: 0 }
        } else {
            self.belt_pieces[self.belt_pieces.len() - 1].grid_position
        }
    }

    /// The three cells an external chain may splice into ahead of the head:
    /// the head piece's left, back, and right neighbours.  Empty when the
    /// chain is empty.
    pub fn get_connecting_positions_from_start(&self) -> (r: Vec<GridPosition>)
        requires
            pieces_wf(self.belt_pieces@),
        ensures
            self.belt_pieces@.len() == 0 ==> r@.len() == 0,
            self.belt_pieces@.len() > 0 ==> {
                let sp = self.belt_pieces@[0];
                &&& r@.len() == 3
                &&& r@[0] == left_of(sp.grid_position, sp.grid_rotation)
                &&& r@[1] == back_of(sp.grid_position, sp.grid_rotation)
                &&& r@[2] == right_of(sp.grid_position, sp.grid_rotation)
            },
    {
        let mut r: Vec<GridPosition> = Vec::new();
        if self.belt_pieces.len() == 0 {
            return r;
        }
        let sp = self.belt_pieces[0];
        r.push(sp.grid_position.get_relative_left(sp.grid_rotation));
        r.push(sp.grid_position.get_relative_back(sp.grid_rotation));
        r.push(sp.grid_position.get_relative_right(sp.grid_rotation));
        r
    }

    /// The three cells the tail may feed into: the tail piece's left,
    /// forward, and right neighbours.  Empty when the chain is empty.
    pub fn get_connecting_positions_from_end(&self) -> (r: Vec<GridPosition>)
        requires
            pieces_wf(self.belt_pieces@),
        ensures
            self.belt_pieces@.len() == 0 ==> r@.len() == 0,
            self.belt_pieces@.len() > 0 ==> {
                let ep = self.belt_pieces@.last();
                &&& r@.len() == 3
                &&& r@[0] == left_of(ep.grid_position, ep.grid_rotation)
                &&& r@[1] == forward_of(ep.grid_position, ep.grid_rotation)
                &&& r@[2] == right_of(ep.grid_position, ep.grid_rotation)
            },
    {
        let mut r: Vec<GridPosition> = Vec::new();
        if self.belt_pieces.len() == 0 {
            return r;
        }
        let ep = self.belt_pieces[self.belt_pieces.len() - 1];
        r.push(ep.grid_position.get_relative_left(ep.grid_rotation));
        r.push(ep.grid_position.get_relative_forward(ep.grid_rotation));
        r.push(ep.grid_position.get_relative_right(ep.grid_rotation));
        r
    }

    /// Whether `other_piece` can feed this chain's head: it stands on one of
    /// the head's three connecting cells and its own forward cell is exactly
    /// the head's cell.
    pub fn can_connect_to_start_piece(&self, other_piece: &BeltPiece) -> (r: bool)
        requires
            pieces_wf(self.belt_pieces@),
            pos_in_grid_range(other_piece.grid_position),
        ensures
            r == can_feed_start(*self, *other_piece),
    {
        if self.belt_pieces.len() == 0 {
            return false;
        }
        let sp = self.belt_pieces[0];
        let on_connecting: bool = other_piece.grid_position == sp.grid_position.get_relative_left(
            sp.grid_rotation,
        ) || other_piece.grid_position == sp.grid_position.get_relative_back(sp.grid_rotation)
            || other_piece.grid_position == sp.grid_position.get_relative_right(sp.grid_rotation);
        if !on_connecting {
            return false;
        }
        other_piece.relative_forward_position() == sp.grid_position
    }

    /// Whether this chain's tail can feed `other_piece`: it stands on one of
    /// the tail's three connecting cells and the tail's forward cell is
    /// exactly its cell.
    pub fn end_piece_can_connect_to(&self, other_piece: &BeltPiece) -> (r: bool)
        requires
            pieces_wf(self.belt_pieces@),
            pos_in_grid_range(other_piece.grid_position),
        ensures
            r == end_can_feed(*self, *other_piece),
    {
        if self.belt_pieces.len() == 0 {
            return false;
        }
        let ep = self.belt_pieces[self.belt_pieces.len() - 1];
        let on_connecting: bool = other_piece.grid_position == ep.grid_position.get_relative_left(
            ep.grid_rotation,
        ) || other_piece.grid_position == ep.grid_position.get_relative_forward(ep.grid_rotation)
            || other_piece.grid_position == ep.grid_position.get_relative_right(ep.grid_rotation);
        if !on_connecting {
            return false;
        }
        ep.relative_forward_position() == other_piece.grid_position
    }

    /// The first piece standing on `grid_position`, if any.
    pub fn get_belt_piece_at_position(&self, grid_position: &GridPosition) -> (r: Option<
        BeltPiece,
    >)
        ensures
            r.is_some() == piece_index_at(self.belt_pieces@, *grid_position).is_some(),
            r.is_some() ==> r.unwrap() == self.belt_pieces@[piece_index_at(
                self.belt_pieces@,
                *grid_position,
            ).unwrap()],
            r.is_none() ==> forall|i: int|
                0 <= i < self.belt_pieces@.len()
                    ==> (#[trigger] self.belt_pieces@[i]).grid_position != *grid_position,
    {
        let n: usize = self.belt_pieces.len();
        let mut k: usize = 0;
        while k < n
            invariant
                n == self.belt_pieces@.len(),
                0 <= k <= n,
                forall|i: int|
                    0 <= i < k ==> (#[trigger] self.belt_pieces@[i]).grid_position
                        != *grid_position,
                piece_index_from(self.belt_pieces@, *grid_position, 0) == piece_index_from(
                    self.belt_pieces@,
                    *grid_position,
                    k as int,
                ),
            decreases n - k,
        {
            if self.belt_pieces[k].grid_position == *grid_position {
                return Some(self.belt_pieces[k]);
            }
            k += 1;
        }
        None
    }
}

/// The first index at or after `k` of a piece standing on `pos`.
pub open spec fn piece_index_from(pieces: Seq<BeltPiece>, pos: GridPosition, k: int) -> Option<int>
    decreases pieces.len() - k,
{
    if k < 0 || k >= pieces.len() {
        None
    } else if pieces[k].grid_position == pos {
        Some(k)
    } else {
        piece_index_from(pieces, pos, k + 1)
    }
}

/// The index of the first piece standing on `pos`.
pub open spec fn piece_index_at(pieces: Seq<BeltPiece>, pos: GridPosition) -> Option<int> {
    piece_index_from(pieces, pos, 0)
}

/// What `piece_index_from` answers: a found index names a piece on `pos`
/// after none earlier, and a miss means no piece from `k` on stands there.
pub proof fn lemma_piece_index_from_props(pieces: Seq<BeltPiece>, pos: GridPosition, k: int)
    requires
        0 <= k <= pieces.len(),
    ensures
        match piece_index_from(pieces, pos, k) {
            Some(i) => {
                &&& k <= i < pieces.len()
                &&& pieces[i].grid_position == pos
                &&& forall|j: int| k <= j < i ==> (#[trigger] pieces[j]).grid_position != pos
            },
            None => forall|j: int|
                k <= j < pieces.len() ==> (#[trigger] pieces[j]).grid_position != pos,
        },
    decreases pieces.len() - k,
{
    if k < pieces.len() {
        if pieces[k].grid_position != pos {
            lemma_piece_index_from_props(pieces, pos, k + 1);
        }
    }
}

/// The first non-connector segment at or after index `k` whose area
/// contains `position`.
pub open spec fn seg_index_from(
    segments: Seq<ConveyorSegment>,
    position: WorldPoint,
    k: int,
) -> Option<int>
    decreases segments.len() - k,
{
    if k < 0 || k >= segments.len() {
        None
    } else if !segments[k].is_connector && on_segment(segments[k], position) {
        Some(k)
    } else {
        seg_index_from(segments, position, k + 1)
    }
}

/// The segment an item standing at `position` belongs to: the first
/// non-connector segment containing the position.
pub open spec fn segment_index_spec(b: ConveyorBelt, position: WorldPoint) -> Option<int> {
    seg_index_from(b.segments@, position, 0)
}

/// What `seg_index_from` answers: a found index names a non-connector
/// segment containing the position, every earlier candidate fails, and a
/// miss means every candidate fails.
pub proof fn lemma_seg_index_from_props(
    segments: Seq<ConveyorSegment>,
    position: WorldPoint,
    k: int,
)
    requires
        0 <= k <= segments.len(),
    ensures
        match seg_index_from(segments, position, k) {
            Some(i) => {
                &&& k <= i < segments.len()
                &&& !segments[i].is_connector
                &&& on_segment(segments[i], position)
                &&& forall|j: int|
                    k <= j < i ==> !(!(#[trigger] segments[j]).is_connector && on_segment(
                        segments[j],
                        position,
                    ))
            },
            None => forall|j: int|
                k <= j < segments.len() ==> !(!(#[trigger] segments[j]).is_connector
                    && on_segment(segments[j], position)),
        },
    decreases segments.len() - k,
{
    if k < segments.len() {
        if !(!segments[k].is_connector && on_segment(segments[k], position)) {
            lemma_seg_index_from_props(segments, position, k + 1);
        }
    }
}

/// Squared distance between two world points, in squared micro-units.
pub open spec fn dist_sq(a: WorldPoint, b: WorldPoint) -> int {
    (a.x - b.x) * (a.x - b.x) + (a.z - b.z) * (a.z - b.z)
}

/// Whether an item's cached position stands within `item_size` of a point.
pub open spec fn blocks(item: BeltItem, position: WorldPoint, item_size: int) -> bool {
    dist_sq(item.position, position) < item_size * item_size
}

/// The spacing scan from list index `k` on: an item on an earlier segment
/// is ignored, one on a later segment proves the vicinity clear, and one on
/// the same segment within `item_size` blocks it.
pub open spec fn has_space_from(
    items: Seq<BeltItem>,
    seg: int,
    position: WorldPoint,
    item_size: int,
    exclude: Option<u64>,
    k: int,
) -> bool
    decreases items.len() - k,
{
    if k < 0 || k >= items.len() {
        true
    } else if exclude == Some(items[k].item_entity) {
        has_space_from(items, seg, position, item_size, exclude, k + 1)
    } else if items[k].segment_index < seg {
        has_space_from(items, seg, position, item_size, exclude, k + 1)
    } else if items[k].segment_index > seg {
        true
    } else if blocks(items[k], position, item_size) {
        false
    } else {
        has_space_from(items, seg, position, item_size, exclude, k + 1)
    }
}

/// Whether a chain has room for an item of width `item_size` at `position`,
/// ignoring the item named by `exclude`: false when the position lies on no
/// segment, otherwise the result of the spacing scan.
pub open spec fn has_space_spec(
    b: ConveyorBelt,
    position: WorldPoint,
    item_size: int,
    exclude: Option<u64>,
) -> bool {
    match segment_index_spec(b, position) {
        None => false,
        Some(i) => has_space_from(b.items@, i, position, item_size, exclude, 0),
    }
}

/// How many leading items of an ordered list ride at or after segment `seg`
/// and progress `progress`: the rank at which such an item is inserted.
pub open spec fn insert_rank(items: Seq<BeltItem>, seg: int, progress: int) -> int
    decreases items.len(),
{
    if items.len() == 0 {
        0int
    } else if items[0].segment_index > seg || (items[0].segment_index == seg
        && items[0].segment_progress >= progress) {
        1 + insert_rank(items.drop_first(), seg, progress)
    } else {
        0int
    }
}

/// What `insert_rank` answers: every item before the rank rides at or after
/// the insertion point, and the item at the rank (when there is one) rides
/// strictly before it.
pub proof fn lemma_insert_rank_props(items: Seq<BeltItem>, seg: int, progress: int)
    ensures
        0 <= insert_rank(items, seg, progress) <= items.len(),
        forall|i: int|
            0 <= i < insert_rank(items, seg, progress) ==> ((#[trigger] items[i]).segment_index
                > seg || (items[i].segment_index == seg && items[i].segment_progress >= progress)),
        insert_rank(items, seg, progress) < items.len() ==> !(items[insert_rank(
            items,
            seg,
            progress,
        )].segment_index > seg || (items[insert_rank(items, seg, progress)].segment_index == seg
            && items[insert_rank(items, seg, progress)].segment_progress >= progress)),
    decreases items.len(),
{
    if items.len() > 0 {
        if items[0].segment_index > seg || (items[0].segment_index == seg
            && items[0].segment_progress >= progress) {
            lemma_insert_rank_props(items.drop_first(), seg, progress);
            assert forall|i: int| 0 <= i < insert_rank(items, seg, progress) implies ((
            #[trigger] items[i]).segment_index > seg || (items[i].segment_index == seg
                && items[i].segment_progress >= progress)) by {
                if i > 0 {
                    assert(items[i] == items.drop_first()[i - 1]);
                }
            }
            if insert_rank(items, seg, progress) < items.len() {
                assert(items[insert_rank(items, seg, progress)] == items.drop_first()[insert_rank(
                    items.drop_first(),
                    seg,
                    progress,
                )]);
            }
        }
    }
}

/// Inserting an item at its rank keeps the list ordered.
pub proof fn lemma_ordered_insert(items: Seq<BeltItem>, item: BeltItem)
    requires
        items_ordered(items),
    ensures
        items_ordered(
            items.insert(
                insert_rank(items, item.segment_index as int, item.segment_progress as int),
                item,
            ),
        ),
{
    let seg = item.segment_index as int;
    let progress = item.segment_progress as int;
    let r = insert_rank(items, seg, progress);
    lemma_insert_rank_props(items, seg, progress);
    let out = items.insert(r, item);
    assert forall|i: int, j: int| 0 <= i < j < out.len() implies item_at_or_after(
        #[trigger] out[i],
        #[trigger] out[j],
    ) by {
        if i < r && j < r {
            assert(out[i] == items[i] && out[j] == items[j]);
        } else if i < r && j == r {
            assert(out[i] == items[i]);
        } else if i < r && j > r {
            assert(out[i] == items[i] && out[j] == items[j - 1]);
        } else if i == r && j > r {
            assert(out[j] == items[j - 1]);
            if j - 1 > r {
                assert(item_at_or_after(items[r], items[j - 1]));
            }
        } else {
            assert(out[i] == items[i - 1] && out[j] == items[j - 1]);
        }
    }
}

/// The item list with every entry carrying payload entity `e` removed; the
/// order of the rest is kept.
pub open spec fn remove_entity(items: Seq<BeltItem>, e: u64) -> Seq<BeltItem>
    decreases items.len(),
{
    if items.len() == 0 {
        Seq::<BeltItem>::empty()
    } else if items.last().item_entity == e {
        remove_entity(items.drop_last(), e)
    } else {
        remove_entity(items.drop_last(), e).push(items.last())
    }
}

/// Every entry of the filtered list is an entry of the unfiltered list.
pub proof fn lemma_remove_entity_membership(items: Seq<BeltItem>, e: u64)
    ensures
        remove_entity(items, e).len() <= items.len(),
        forall|i: int|
            0 <= i < remove_entity(items, e).len() ==> exists|j: int|
                0 <= j < items.len() && #[trigger] remove_entity(items, e)[i] == items[j],
    decreases items.len(),
{
    if items.len() > 0 {
        lemma_remove_entity_membership(items.drop_last(), e);
        assert forall|i: int| 0 <= i < remove_entity(items, e).len() implies exists|j: int|
            0 <= j < items.len() && #[trigger] remove_entity(items, e)[i] == items[j] by {
            if items.last().item_entity == e || i < remove_entity(items, e).len() - 1 {
                let jj = choose|j: int|
                    0 <= j < items.drop_last().len() && remove_entity(items.drop_last(), e)[i]
                        == items.drop_last()[j];
                assert(remove_entity(items, e)[i] == items[jj]);
            } else {
                assert(remove_entity(items, e)[i] == items[items.len() - 1]);
            }
        }
    }
}

impl ConveyorBelt {
    /// The index of the first non-connector segment containing `position`,
    /// or nothing when the position lies on no segment.
    pub fn get_segment_index_for_position(&self, position: WorldPoint) -> (r: Option<usize>)
        requires
            segments_wf(self.segments@),
            point_in_world_range(position),
        ensures
            r.is_some() == segment_index_spec(*self, position).is_some(),
            r.is_some() ==> r.unwrap() as int == segment_index_spec(*self, position).unwrap(),
    {
        let n: usize = self.segments.len();
        let mut k: usize = 0;
        while k < n
            invariant
                n == self.segments@.len(),
                0 <= k <= n,
                segments_wf(self.segments@),
                point_in_world_range(position),
                seg_index_from(self.segments@, position, 0) == seg_index_from(
                    self.segments@,
                    position,
                    k as int,
                ),
            decreases n - k,
        {
            let s = self.segments[k];
            if !s.is_connector && s.point_on_segment(position) {
                return Some(k);
            }
            k += 1;
        }
        None
    }

    /// Whether an item of width `item_size` fits at `position`, ignoring the
    /// payload entity named by `exclude`: an item on a later segment proves
    /// the vicinity clear, one on the same segment within `item_size`
    /// blocks, and a position on no segment never has room.
    pub fn has_space_at_position(
        &self,
        position: WorldPoint,
        item_size: i64,
        exclude: Option<u64>,
    ) -> (r: bool)
        requires
            belt_inv(*self),
            point_in_world_range(position),
            0 <= item_size <= MAX_ITEM_WIDTH,
        ensures
            r == has_space_spec(*self, position, item_size as int, exclude),
    {
        let found: Option<usize> = self.get_segment_index_for_position(position);
        let i: usize = match found {
            None => {
                return false;
            },
            Some(i) => i,
        };
        let n: usize = self.items.len();
        let mut k: usize = 0;
        while k < n
            invariant
                n == self.items@.len(),
                0 <= k <= n,
                belt_inv(*self),
                point_in_world_range(position),
                0 <= item_size <= MAX_ITEM_WIDTH,
                segment_index_spec(*self, position) == Some(i as int),
                has_space_from(self.items@, i as int, position, item_size as int, exclude, 0)
                    == has_space_from(
                    self.items@,
                    i as int,
                    position,
                    item_size as int,
                    exclude,
                    k as int,
                ),
            decreases n - k,
        {
            let item = self.items[k];
            proof {
                assert(self.items@[k as int] == item);
            }
            let skip: bool = match exclude {
                Some(e) => item.item_entity == e,
                None => false,
            };
            proof {
                assert(skip == (exclude == Some(item.item_entity)));
            }
            if !skip {
                if item.segment_index > i {
                    proof {
                        assert(has_space_from(
                            self.items@,
                            i as int,
                            position,
                            item_size as int,
                            exclude,
                            k as int,
                        ));
                    }
                    return true;
                }
                if item.segment_index == i {
                    if squared_distance_less(item.position, position, item_size) {
                        proof {
                            assert(!has_space_from(
                                self.items@,
                                i as int,
                                position,
                                item_size as int,
                                exclude,
                                k as int,
                            ));
                        }
                        return false;
                    }
                }
            }
            proof {
                assert(has_space_from(
                    self.items@,
                    i as int,
                    position,
                    item_size as int,
                    exclude,
                    k as int,
                ) == has_space_from(
                    self.items@,
                    i as int,
                    position,
                    item_size as int,
                    exclude,
                    k as int + 1,
                ));
            }
            k += 1;
        }
        true
    }

    /// Inserts an item at the list position its location earns, recomputing
    /// its segment index and progress from its cached world position.  The
    /// one failure is a position on no segment: the fatal desynchronization
    /// `ItemOffSegments`, which leaves the chain untouched.
    pub fn insert_item(&mut self, item: &BeltItem) -> (r: Result<(), BeltError>)
        requires
            belt_inv(*old(self)),
            point_in_world_range(item.position),
            0 < item.item_width <= MAX_ITEM_WIDTH,
        ensures
            belt_inv(*final(self)),
            final(self).belt_pieces == old(self).belt_pieces,
            final(self).segments == old(self).segments,
            final(self).belt_speed == old(self).belt_speed,
            final(self).connected_conveyor_belt == old(self).connected_conveyor_belt,
            match r {
                Ok(()) => {
                    &&& segment_index_spec(*old(self), item.position).is_some()
                    &&& final(self).items@ == old(self).items@.insert(
                        insert_rank(
                            old(self).items@,
                            segment_index_spec(*old(self), item.position).unwrap(),
                            progress_of(
                                old(self).segments@[segment_index_spec(
                                    *old(self),
                                    item.position,
                                ).unwrap()],
                                item.position,
                            ),
                        ),
                        item_settled(*old(self), *item),
                    )
                },
                Err(e) => {
                    &&& e == BeltError::ItemOffSegments
                    &&& segment_index_spec(*old(self), item.position).is_none()
                    &&& final(self).items == old(self).items
                },
            },
    {
        let found: Option<usize> = self.get_segment_index_for_position(item.position);
        let index: usize = match found {
            None => {
                return Err(BeltError::ItemOffSegments);
            },
            Some(i) => i,
        };
        proof {
            lemma_seg_index_from_props(self.segments@, item.position, 0);
        }
        let progress: i64 = self.segments[index].progress_for_point(item.position);
        let settled = BeltItem {
            item_entity: item.item_entity,
            position: item.position,
            segment_progress: progress,
            segment_index: index,
            item_width: item.item_width,
        };
        let n: usize = self.items.len();
        let mut k: usize = 0;
        let mut stop: bool = false;
        while k < n && !stop
            invariant
                n == self.items@.len(),
                0 <= k <= n,
                forall|i: int|
                    0 <= i < k ==> ((#[trigger] self.items@[i]).segment_index > settled.segment_index
                        || (self.items@[i].segment_index == settled.segment_index
                        && self.items@[i].segment_progress >= settled.segment_progress)),
                stop ==> k < n && !(self.items@[k as int].segment_index > settled.segment_index || (
                self.items@[k as int].segment_index == settled.segment_index
                    && self.items@[k as int].segment_progress >= settled.segment_progress)),
            decreases n - k + (if stop {
                0int
            } else {
                1int
            }),
        {
            let existing = self.items[k];
            if existing.segment_index > settled.segment_index || (existing.segment_index
                == settled.segment_index && existing.segment_progress
                >= settled.segment_progress) {
                k += 1;
            } else {
                stop = true;
            }
        }
        proof {
            lemma_insert_rank_props(
                self.items@,
                settled.segment_index as int,
                settled.segment_progress as int,
            );
            assert(k as int == insert_rank(
                self.items@,
                settled.segment_index as int,
                settled.segment_progress as int,
            ));
            lemma_ordered_insert(self.items@, settled);
        }
        self.items.insert(k, settled);
        Ok(())
    }

    /// Removes every item carrying the given payload entity; the rest keep
    /// their order.
    pub fn remove_item(&mut self, belt_item: &BeltItem)
        requires
            belt_inv(*old(self)),
        ensures
            belt_inv(*final(self)),
            final(self).belt_pieces == old(self).belt_pieces,
            final(self).segments == old(self).segments,
            final(self).belt_speed == old(self).belt_speed,
            final(self).connected_conveyor_belt == old(self).connected_conveyor_belt,
            final(self).items@ == remove_entity(old(self).items@, belt_item.item_entity),
    {
        let e: u64 = belt_item.item_entity;
        let n: usize = self.items.len();
        let mut kept: Vec<BeltItem> = Vec::new();
        let mut k: usize = 0;
        while k < n
            invariant
                n == self.items@.len(),
                0 <= k <= n,
                belt_inv(*self),
                kept@ == remove_entity(self.items@.take(k as int), e),
                forall|i: int|
                    0 <= i < kept@.len() ==> exists|j: int|
                        0 <= j < k && #[trigger] kept@[i] == self.items@[j],
            decreases n - k,
        {
            let item = self.items[k];
            proof {
                assert(self.items@.take(k as int + 1).drop_last() =~= self.items@.take(k as int));
                assert(self.items@.take(k as int + 1).last() == self.items@[k as int]);
            }
            if item.item_entity != e {
                let ghost old_kept = kept@;
                kept.push(item);
                proof {
                    assert forall|i: int| 0 <= i < kept@.len() implies exists|j: int|
                        0 <= j < k + 1 && #[trigger] kept@[i] == self.items@[j] by {
                        if i < kept@.len() - 1 {
                            assert(kept@[i] == old_kept[i]);
                            let jj = choose|j: int| 0 <= j < k && old_kept[i] == self.items@[j];
                            assert(kept@[i] == self.items@[jj]);
                        } else {
                            assert(kept@[i] == self.items@[k as int]);
                        }
                    }
                }
            }
            k += 1;
        }
        proof {
            assert(self.items@.take(n as int) =~= self.items@);
            assert(items_ordered(kept@)) by {
                assert forall|i: int, j: int| 0 <= i < j < kept@.len() implies item_at_or_after(
                    #[trigger] kept@[i],
                    #[trigger] kept@[j],
                ) by {
                    let ii = choose|a: int| 0 <= a < n && kept@[i] == self.items@[a];
                    let jj = choose|a: int| 0 <= a < n && kept@[j] == self.items@[a];
                    lemma_remove_entity_positions(self.items@, e, i, j);
                }
            };
        }
        self.items = kept;
    }
}

/// A spec-level exec helper: whether two points stand closer than `w`.
fn squared_distance_less(a: WorldPoint, b: WorldPoint, w: i64) -> (r: bool)
    requires
        point_in_world_range(a),
        point_in_world_range(b),
        0 <= w <= MAX_ITEM_WIDTH,
    ensures
        r == (dist_sq(a, b) < w * w),
{
    let dx: i128 = (a.x as i128) - (b.x as i128);
    let dz: i128 = (a.z as i128) - (b.z as i128);
    proof {
        assert(dx * dx + dz * dz <= i128::MAX && dx * dx >= 0 && dz * dz >= 0 && w as i128 * (
        w as i128) <= i128::MAX) by (nonlinear_arith)
            requires
                -(2 * crate::units::MAX_WORLD_COORD as int) <= dx <= 2
                    * crate::units::MAX_WORLD_COORD as int,
                -(2 * crate::units::MAX_WORLD_COORD as int) <= dz <= 2
                    * crate::units::MAX_WORLD_COORD as int,
                0 <= w <= MAX_ITEM_WIDTH,
        ;
    }
    let d2: i128 = dx * dx + dz * dz;
    d2 < (w as i128) * (w as i128)
}

/// Two positions of the filtered list come from two positions of the
/// unfiltered list in the same relative order, so an ordered list filters
/// to an ordered list.
pub proof fn lemma_remove_entity_positions(items: Seq<BeltItem>, e: u64, i: int, j: int)
    requires
        items_ordered(items),
        0 <= i < j < remove_entity(items, e).len(),
    ensures
        item_at_or_after(remove_entity(items, e)[i], remove_entity(items, e)[j]),
    decreases items.len(),
{
    if items.len() > 0 {
        let out = remove_entity(items, e);
        let inner = remove_entity(items.drop_last(), e);
        assert(items_ordered(items.drop_last())) by {
            assert forall|a: int, b: int|
                0 <= a < b < items.drop_last().len() implies item_at_or_after(
                #[trigger] items.drop_last()[a],
                #[trigger] items.drop_last()[b],
            ) by {
                assert(items.drop_last()[a] == items[a] && items.drop_last()[b] == items[b]);
            }
        };
        if items.last().item_entity == e {
            lemma_remove_entity_positions(items.drop_last(), e, i, j);
        } else {
            if j < out.len() - 1 {
                lemma_remove_entity_positions(items.drop_last(), e, i, j);
            } else {
                lemma_remove_entity_membership(items.drop_last(), e);
                let jj = choose|a: int|
                    0 <= a < items.drop_last().len() && #[trigger] inner[i] == items.drop_last()[a];
                assert(out[i] == items[jj]);
                assert(out[j] == items[items.len() - 1]);
                assert(item_at_or_after(items[jj], items[items.len() - 1]));
            }
        }
    }
}

/// The item as the chain stores it: the caller's payload, position, and
/// width, with the segment index and progress the chain computes for that
/// position.
pub open spec fn item_settled(b: ConveyorBelt, item: BeltItem) -> BeltItem {
    let idx = segment_index_spec(b, item.position).unwrap();
    BeltItem {
        item_entity: item.item_entity,
        position: item.position,
        segment_progress: progress_of(b.segments@[idx], item.position) as i64,
        segment_index: idx as usize,
        item_width: item.item_width,
    }
}

/// Whether `other` can feed the chain's head piece.
pub open spec fn can_feed_start(b: ConveyorBelt, other: BeltPiece) -> bool {
    &&& b.belt_pieces@.len() > 0
    &&& {
        let sp = b.belt_pieces@[0];
        &&& (other.grid_position == left_of(sp.grid_position, sp.grid_rotation)
            || other.grid_position == back_of(sp.grid_position, sp.grid_rotation)
            || other.grid_position == right_of(sp.grid_position, sp.grid_rotation))
        &&& forward_of(other.grid_position, other.grid_rotation) == sp.grid_position
    }
}

/// Whether the chain's tail piece can feed `other`.
pub open spec fn end_can_feed(b: ConveyorBelt, other: BeltPiece) -> bool {
    &&& b.belt_pieces@.len() > 0
    &&& {
        let ep = b.belt_pieces@.last();
        &&& (other.grid_position == left_of(ep.grid_position, ep.grid_rotation)
            || other.grid_position == forward_of(ep.grid_position, ep.grid_rotation)
            || other.grid_position == right_of(ep.grid_position, ep.grid_rotation))
        &&& forward_of(ep.grid_position, ep.grid_rotation) == other.grid_position
    }
}

} // verus!
