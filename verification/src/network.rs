//! The conveyor network: an arena of chain records and the merge/split
//! topology maintenance.
//!
//! Chains live in stable slots of an arena; a destroyed chain leaves an
//! empty slot behind, so slot indices stay valid across every operation.
//! Placing a piece spawns a singleton chain and splices adjacent, aligned
//! chains into it; removing a piece detaches a chain end or splits a chain
//! in two.  Segments are rebuilt from the pieces after every topology
//! change, and every surviving item is re-settled onto the new geometry; an
//! item whose cached position lies on no rebuilt segment is a fatal
//! desynchronization, reported as `ItemOffSegments` and never masked.

use vstd::prelude::*;
use vstd::multiset::Multiset;
use vstd::pervasive::VecAdditionalExecFns;

use crate::belt::BeltError;
use crate::belt::BeltItem;
use crate::belt::BeltPiece;
use crate::belt::ConveyorBelt;
use crate::belt::belt_inv;
use crate::belt::can_feed_start;
use crate::belt::end_can_feed;
use crate::belt::item_settled;
use crate::belt::pieces_wf;
use crate::belt::segment_index_spec;
use crate::belt::segments_wf;
use crate::builder::build_segments;
use crate::builder::build_segments_spec;
use crate::builder::center_of;
use crate::builder::chain_connected;
use crate::grid::GridPosition;
use crate::grid::GridRotation;
use crate::grid::WorldGrid;
use crate::grid::cell_size_ok;
use crate::grid::forward_of;
use crate::grid::pos_in_grid_range;
use crate::grid::rotation_difference;
use crate::segment::ConveyorSegment;
use crate::segment::WorldPoint;
use crate::segment::point_in_world_range;
use crate::segment::seg_wf;
use crate::units::MAX_ITEM_WIDTH;

verus! {

/// The conveyor network: the grid geometry and the arena of chains,
/// addressed by stable slot index.
pub struct ConveyorNetwork {
    pub grid: WorldGrid,
    pub chains: Vec<Option<ConveyorBelt>>,
}

/// Whether slot `c` holds a live chain.
pub open spec fn live(n: ConveyorNetwork, c: int) -> bool {
    0 <= c < n.chains@.len() && n.chains@[c].is_some()
}

/// The chain in slot `c`.
pub open spec fn chain(n: ConveyorNetwork, c: int) -> ConveyorBelt {
    n.chains@[c].unwrap()
}

/// What a live chain always satisfies: the belt invariant, a non-empty and
/// head-to-tail connected piece list, and a connected-chain reference that
/// stays inside the arena.
pub open spec fn chain_ok(n: ConveyorNetwork, b: ConveyorBelt) -> bool {
    &&& belt_inv(b)
    &&& b.belt_pieces@.len() >= 1
    &&& chain_connected(b.belt_pieces@)
    &&& match b.connected_conveyor_belt {
        Some(j) => j < n.chains@.len(),
        None => true,
    }
}

/// The network invariant: a legal cell size, and every live chain in good
/// standing.  A chain exists exactly as long as it has pieces: an empty
/// slot is the only way for a chain to be gone.
pub open spec fn net_inv(n: ConveyorNetwork) -> bool {
    &&& cell_size_ok(n.grid.grid_size)
    &&& forall|c: int| live(n, c) ==> chain_ok(n, #[trigger] n.chains@[c].unwrap())
}

/// Whether a chain holds a piece standing on `pos`.
pub open spec fn chain_has_piece_at(b: ConveyorBelt, pos: GridPosition) -> bool {
    exists|k: int| 0 <= k < b.belt_pieces@.len() && (#[trigger] b.belt_pieces@[k]).grid_position == pos
}

/// The first live slot at or after `c` whose chain has a piece on `pos`.
pub open spec fn chain_at_pos_from(n: ConveyorNetwork, pos: GridPosition, c: int) -> Option<int>
    decreases n.chains@.len() - c,
{
    if c < 0 || c >= n.chains@.len() {
        None
    } else if n.chains@[c].is_some() && chain_has_piece_at(n.chains@[c].unwrap(), pos) {
        Some(c)
    } else {
        chain_at_pos_from(n, pos, c + 1)
    }
}

/// The slot of the first live chain with a piece on `pos`.
pub open spec fn chain_at_position_spec(n: ConveyorNetwork, pos: GridPosition) -> Option<int> {
    chain_at_pos_from(n, pos, 0)
}

/// Whether a chain holds a piece standing for entity `e`.
pub open spec fn chain_has_entity(b: ConveyorBelt, e: u64) -> bool {
    exists|k: int| 0 <= k < b.belt_pieces@.len() && (#[trigger] b.belt_pieces@[k]).entity == e
}

/// The first live slot at or after `c` whose chain holds entity `e`.
pub open spec fn chain_with_entity_from(n: ConveyorNetwork, e: u64, c: int) -> Option<int>
    decreases n.chains@.len() - c,
{
    if c < 0 || c >= n.chains@.len() {
        None
    } else if n.chains@[c].is_some() && chain_has_entity(n.chains@[c].unwrap(), e) {
        Some(c)
    } else {
        chain_with_entity_from(n, e, c + 1)
    }
}

/// The slot of the first live chain holding entity `e`.
pub open spec fn chain_with_entity_spec(n: ConveyorNetwork, e: u64) -> Option<int> {
    chain_with_entity_from(n, e, 0)
}

/// The neighbour piece a rebuilt chain bridges into: the first piece on the
/// cell forward of the tail, provided its rotation differs from the tail's
/// by at most one (same or perpendicular, never opposite).
pub open spec fn connector_target(n: ConveyorNetwork, tail: BeltPiece) -> Option<(int, BeltPiece)> {
    let fwd = forward_of(tail.grid_position, tail.grid_rotation);
    match chain_at_position_spec(n, fwd) {
        None => None,
        Some(j) => {
            let p = chain(n, j).belt_pieces@[crate::belt::piece_index_at(
                chain(n, j).belt_pieces@,
                fwd,
            ).unwrap()];
            if rotation_difference(p.grid_rotation, tail.grid_rotation) <= 1 {
                Some((j, p))
            } else {
                None
            }
        },
    }
}

/// The synthetic bridge segment from the rebuilt geometry's end to a
/// neighbour piece's centre.
pub open spec fn connector_seg(
    real_end: WorldPoint,
    p: BeltPiece,
    rot: GridRotation,
    cell: i64,
) -> ConveyorSegment {
    ConveyorSegment { start: real_end, end: center_of(p, cell), dir: rot, is_connector: true }
}

/// The full segment list a rebuild derives for the given pieces: the real
/// segments, plus one connector when a bridgeable neighbour sits forward of
/// the tail.
pub open spec fn rebuilt_segments(n: ConveyorNetwork, pieces: Seq<BeltPiece>) -> Seq<
    ConveyorSegment,
> {
    let cell = n.grid.grid_size;
    let straight = build_segments_spec(pieces, cell);
    match connector_target(n, pieces.last()) {
        None => straight,
        Some((j, p)) => straight.push(
            connector_seg(straight.last().end, p, pieces.last().grid_rotation, cell),
        ),
    }
}

/// The connected-chain reference a rebuild derives for the given pieces.
pub open spec fn rebuilt_connected(n: ConveyorNetwork, pieces: Seq<BeltPiece>) -> Option<usize> {
    match connector_target(n, pieces.last()) {
        None => None,
        Some((j, p)) => Some(j as usize),
    }
}

/// Items the engine can settle: representable positions, legal widths.
pub open spec fn items_placeable(items: Seq<BeltItem>) -> bool {
    forall|i: int|
        0 <= i < items.len() ==> point_in_world_range((#[trigger] items[i]).position) && 0 < items[
            i
        ].item_width <= MAX_ITEM_WIDTH
}

/// An item settled onto a segment list: it rides the first non-connector
/// segment its position lies on, at the progress that position projects to.
pub open spec fn settled_on(it: BeltItem, segs: Seq<ConveyorSegment>) -> bool {
    &&& crate::belt::seg_index_from(segs, it.position, 0) == Some(it.segment_index as int)
    &&& it.segment_progress == crate::segment::progress_of(
        segs[it.segment_index as int],
        it.position,
    )
}

/// The payload key of an item: what re-settling preserves.
pub open spec fn item_key(it: BeltItem) -> (u64, WorldPoint, i64) {
    (it.item_entity, it.position, it.item_width)
}

/// The multiset of payload keys a list of items carries.
pub open spec fn items_keys(items: Seq<BeltItem>) -> Multiset<(u64, WorldPoint, i64)> {
    items.map_values(|it: BeltItem| item_key(it)).to_multiset()
}

/// Appending one element adds exactly its key to a sequence's multiset.
proof fn lemma_keys_push(s: Seq<BeltItem>, x: BeltItem)
    ensures
        items_keys(s.push(x)) == items_keys(s).insert(item_key(x)),
{
    let f = |it: BeltItem| item_key(it);
    assert(s.push(x).map_values(f) =~= s.map_values(f).push(f(x)));
    s.map_values(f).to_multiset_ensures();
    assert(s.map_values(f).push(f(x)).to_multiset() =~= s.map_values(f).to_multiset().insert(
        f(x),
    ));
}

/// Inserting one element adds exactly its key to a sequence's multiset.
proof fn lemma_keys_insert(s: Seq<BeltItem>, i: int, x: BeltItem)
    requires
        0 <= i <= s.len(),
    ensures
        items_keys(s.insert(i, x)) == items_keys(s).insert(item_key(x)),
{
    let f = |it: BeltItem| item_key(it);
    let m = s.map_values(f);
    assert(s.insert(i, x).map_values(f) =~= m.insert(i, f(x)));
    let a = m.subrange(0, i);
    let b = m.subrange(i, m.len() as int);
    assert(m.insert(i, f(x)) == a.push(f(x)) + b);
    vstd::seq_lib::lemma_multiset_commutative(a.push(f(x)), b);
    a.to_multiset_ensures();
    assert(m =~= a + b);
    vstd::seq_lib::lemma_multiset_commutative(a, b);
    assert(a.to_multiset().insert(f(x)).add(b.to_multiset()) =~= a.to_multiset().add(
        b.to_multiset(),
    ).insert(f(x)));
}

/// One re-settling step: inserting an item at its rank adds its key and
/// keeps every stored item settled.
proof fn lemma_resettle_step(
    pre_b: ConveyorBelt,
    b: ConveyorBelt,
    it: BeltItem,
    prefix: Seq<BeltItem>,
)
    requires
        segment_index_spec(pre_b, it.position).is_some(),
        b.segments@ == pre_b.segments@,
        b.items@ == pre_b.items@.insert(
            crate::belt::insert_rank(
                pre_b.items@,
                segment_index_spec(pre_b, it.position).unwrap(),
                crate::segment::progress_of(
                    pre_b.segments@[segment_index_spec(pre_b, it.position).unwrap()],
                    it.position,
                ),
            ),
            item_settled(pre_b, it),
        ),
        items_keys(pre_b.items@) == items_keys(prefix),
        forall|i: int|
            0 <= i < pre_b.items@.len() ==> settled_on(#[trigger] pre_b.items@[i], pre_b.segments@),
    ensures
        items_keys(b.items@) == items_keys(prefix.push(it)),
        b.items@.len() == pre_b.items@.len() + 1,
        forall|i: int| 0 <= i < b.items@.len() ==> settled_on(#[trigger] b.items@[i], b.segments@),
{
    broadcast use vstd::std_specs::vec::axiom_spec_len;

    let idx = segment_index_spec(pre_b, it.position).unwrap();
    let prog = crate::segment::progress_of(pre_b.segments@[idx], it.position);
    let rank = crate::belt::insert_rank(pre_b.items@, idx, prog);
    let settled = item_settled(pre_b, it);
    assert(pre_b.segments@.len() == vstd::std_specs::vec::spec_vec_len(&pre_b.segments));
    crate::belt::lemma_insert_rank_props(pre_b.items@, idx, prog);
    crate::belt::lemma_seg_index_from_props(pre_b.segments@, it.position, 0);
    lemma_keys_insert(pre_b.items@, rank, settled);
    assert(item_key(settled) == item_key(it));
    lemma_keys_push(prefix, it);
    crate::segment::lemma_progress_of_bounds(pre_b.segments@[idx], it.position);
    assert(settled_on(settled, b.segments@));
    pre_b.items@.insert_ensures(rank, settled);
    assert forall|i: int| 0 <= i < b.items@.len() implies settled_on(
        #[trigger] b.items@[i],
        b.segments@,
    ) by {
        if i < rank {
            assert(b.items@[i] == pre_b.items@[i]);
        } else if i == rank {
            assert(b.items@[i] == settled);
        } else {
            assert(b.items@[i] == pre_b.items@[i - 1]);
        }
    }
}

/// A connector segment spanning exactly one cell forward of the tail is
/// well-formed.
proof fn lemma_connector_wf(tail: BeltPiece, p: BeltPiece, cell: i64)
    requires
        cell_size_ok(cell),
        pos_in_grid_range(tail.grid_position),
        pos_in_grid_range(p.grid_position),
        p.grid_position == forward_of(tail.grid_position, tail.grid_rotation),
    ensures
        seg_wf(connector_seg(center_of(tail, cell), p, tail.grid_rotation, cell)),
{
    let r = tail.grid_rotation;
    let dx = crate::grid::direction_of(r).0;
    let dz = crate::grid::direction_of(r).1;
    crate::builder::lemma_center_in_range(tail, cell);
    crate::builder::lemma_center_in_range(p, cell);
    let xt = tail.grid_position.x as int;
    let yt = tail.grid_position.y as int;
    match r {
        GridRotation::N => {
            assert(p.grid_position.x == xt && p.grid_position.y == yt + 1);
        },
        GridRotation::S => {
            assert(p.grid_position.x == xt && p.grid_position.y == yt - 1);
        },
        GridRotation::W => {
            assert(p.grid_position.x == xt + 1 && p.grid_position.y == yt);
        },
        GridRotation::E => {
            assert(p.grid_position.x == xt - 1 && p.grid_position.y == yt);
        },
    }
    assert((xt + dx) * cell == xt * cell + dx * cell) by (nonlinear_arith);
    assert((yt + dz) * cell == yt * cell + dz * cell) by (nonlinear_arith);
    let seg = connector_seg(center_of(tail, cell), p, tail.grid_rotation, cell);
    assert(seg.end.x == seg.start.x + dx * (cell as int) && seg.end.z == seg.start.z + dz * (
    cell as int));
    crate::builder::lemma_seg_along_dir(seg.start, seg.end, r, cell as int);
    assert(seg_wf(ConveyorSegment { is_connector: false, ..seg }));
}

/// What `chain_at_pos_from` answers, when it finds a slot: a live chain
/// with a piece on the position.
pub proof fn lemma_chain_at_pos_props(n: ConveyorNetwork, pos: GridPosition, c: int)
    requires
        0 <= c <= n.chains@.len(),
    ensures
        match chain_at_pos_from(n, pos, c) {
            Some(j) => c <= j < n.chains@.len() && live(n, j) && chain_has_piece_at(
                chain(n, j),
                pos,
            ),
            None => true,
        },
    decreases n.chains@.len() - c,
{
    if c < n.chains@.len() {
        if !(n.chains@[c].is_some() && chain_has_piece_at(n.chains@[c].unwrap(), pos)) {
            lemma_chain_at_pos_props(n, pos, c + 1);
        }
    }
}

/// A plain copy of a piece list.
fn copy_pieces(v: &Vec<BeltPiece>) -> (r: Vec<BeltPiece>)
    ensures
        r@ == v@,
{
    let n: usize = v.len();
    let mut r: Vec<BeltPiece> = Vec::new();
    let mut k: usize = 0;
    while k < n
        invariant
            n == v@.len(),
            0 <= k <= n,
            r@ == v@.take(k as int),
        decreases n - k,
    {
        r.push(v[k]);
        proof {
            assert(v@.take(k as int + 1) =~= v@.take(k as int).push(v@[k as int]));
        }
        k += 1;
    }
    proof {
        assert(v@.take(n as int) =~= v@);
    }
    r
}

/// A plain copy of an item list.
fn copy_items(v: &Vec<BeltItem>) -> (r: Vec<BeltItem>)
    ensures
        r@ == v@,
{
    let n: usize = v.len();
    let mut r: Vec<BeltItem> = Vec::new();
    let mut k: usize = 0;
    while k < n
        invariant
            n == v@.len(),
            0 <= k <= n,
            r@ == v@.take(k as int),
        decreases n - k,
    {
        r.push(v[k]);
        proof {
            assert(v@.take(k as int + 1) =~= v@.take(k as int).push(v@[k as int]));
        }
        k += 1;
    }
    proof {
        assert(v@.take(n as int) =~= v@);
    }
    r
}

/// Two connected chains whose junction lines up concatenate to a connected
/// chain.
proof fn lemma_concat_connected(a: Seq<BeltPiece>, b: Seq<BeltPiece>)
    requires
        chain_connected(a),
        chain_connected(b),
        a.len() >= 1,
        b.len() >= 1,
        b[0].grid_position == forward_of(a.last().grid_position, a.last().grid_rotation),
    ensures
        chain_connected(a + b),
{
    assert forall|k: int|
        #![trigger (a + b)[k], (a + b)[k - 1]]
        0 < k < (a + b).len() implies (a + b)[k].grid_position == forward_of(
        (a + b)[k - 1].grid_position,
        (a + b)[k - 1].grid_rotation,
    ) by {
        if k < a.len() {
            assert((a + b)[k] == a[k] && (a + b)[k - 1] == a[k - 1]);
        } else if k == a.len() {
            assert((a + b)[k] == b[0] && (a + b)[k - 1] == a[a.len() - 1]);
        } else {
            assert((a + b)[k] == b[k - a.len()] && (a + b)[k - 1] == b[k - a.len() - 1]);
        }
    }
}

/// Updating one slot, and possibly emptying others, keeps the network
/// invariant as long as the updated slot itself lands in good standing.
proof fn lemma_inv_after_set(pre: ConveyorNetwork, post: ConveyorNetwork, c: int)
    requires
        net_inv(pre),
        post.grid == pre.grid,
        post.chains@.len() == pre.chains@.len(),
        forall|j: int|
            0 <= j < post.chains@.len() && j != c ==> post.chains@[j] == pre.chains@[j] || (
            #[trigger] post.chains@[j]).is_none(),
        live(post, c) ==> chain_ok(post, post.chains@[c].unwrap()),
    ensures
        net_inv(post),
{
    assert forall|j: int| live(post, j) implies chain_ok(
        post,
        #[trigger] post.chains@[j].unwrap(),
    ) by {
        if j != c {
            assert(post.chains@[j] == pre.chains@[j]);
            assert(chain_ok(pre, pre.chains@[j].unwrap()));
        }
    }
}

/// After a successful merge, the surviving chain still carries any piece
/// the old primary carried, and a network without items stays without
/// items.
proof fn lemma_after_merge(
    pre: ConveyorNetwork,
    post: ConveyorNetwork,
    p: int,
    s: int,
    e: int,
    piece: BeltPiece,
)
    requires
        live(pre, p),
        live(pre, s),
        p != s,
        post.chains@.len() == pre.chains@.len(),
        exists|k: int|
            0 <= k < chain(pre, p).belt_pieces@.len() && #[trigger] chain(pre, p).belt_pieces@[k]
                == piece,
        (if can_feed_start(chain(pre, p), chain(pre, s).belt_pieces@.last()) {
            e == s && chain(post, e).belt_pieces@ == chain(pre, s).belt_pieces@ + chain(
                pre,
                p,
            ).belt_pieces@ && post.chains@[p].is_none()
        } else {
            e == p && chain(post, e).belt_pieces@ == chain(pre, p).belt_pieces@ + chain(
                pre,
                s,
            ).belt_pieces@ && post.chains@[s].is_none()
        }),
        live(post, e),
        chain(post, e).items@.len() == chain(pre, p).items@.len() + chain(pre, s).items@.len(),
        forall|j: int|
            0 <= j < post.chains@.len() && j != p && j != s ==> post.chains@[j] == pre.chains@[j],
    ensures
        exists|k: int|
            0 <= k < chain(post, e).belt_pieces@.len() && #[trigger] chain(post, e).belt_pieces@[k]
                == piece,
        all_itemless(pre) ==> all_itemless(post),
{
    let k0 = choose|k: int|
        0 <= k < chain(pre, p).belt_pieces@.len() && #[trigger] chain(pre, p).belt_pieces@[k]
            == piece;
    if can_feed_start(chain(pre, p), chain(pre, s).belt_pieces@.last()) {
        assert(chain(post, e).belt_pieces@[chain(pre, s).belt_pieces@.len() + k0] == piece);
    } else {
        assert(chain(post, e).belt_pieces@[k0] == piece);
    }
    if all_itemless(pre) {
        assert(chain(pre, p).items@.len() == 0 && chain(pre, s).items@.len() == 0) by {
            assert(pre.chains@[p].is_some() && pre.chains@[s].is_some());
        };
        assert forall|j: int| live(post, j) implies (#[trigger] post.chains@[j]).unwrap(
        ).items@.len() == 0 by {
            if j != p && j != s {
                assert(post.chains@[j] == pre.chains@[j]);
            }
        }
    }
}

/// After a successful rebuild of one slot, every chain keeps its pieces and
/// its item count, so piece containment and itemlessness survive.
proof fn lemma_after_rebuild(
    pre: ConveyorNetwork,
    post: ConveyorNetwork,
    c: int,
    primary: int,
    piece: BeltPiece,
)
    requires
        live(pre, primary),
        live(pre, c),
        exists|k: int|
            0 <= k < chain(pre, primary).belt_pieces@.len() && #[trigger] chain(
                pre,
                primary,
            ).belt_pieces@[k] == piece,
        post.chains@.len() == pre.chains@.len(),
        forall|j: int| 0 <= j < post.chains@.len() && j != c ==> post.chains@[j] == pre.chains@[j],
        live(post, c),
        chain(post, c).belt_pieces@ == chain(pre, c).belt_pieces@,
        chain(post, c).items@.len() == chain(pre, c).items@.len(),
    ensures
        live(post, primary),
        exists|k: int|
            0 <= k < chain(post, primary).belt_pieces@.len() && #[trigger] chain(
                post,
                primary,
            ).belt_pieces@[k] == piece,
        all_itemless(pre) ==> all_itemless(post),
{
    let k0 = choose|k: int|
        0 <= k < chain(pre, primary).belt_pieces@.len() && #[trigger] chain(
            pre,
            primary,
        ).belt_pieces@[k] == piece;
    assert(chain(post, primary).belt_pieces@[k0] == piece);
    if all_itemless(pre) {
        assert(chain(pre, c).items@.len() == 0) by {
            assert(pre.chains@[c].is_some());
        };
        assert forall|j: int| live(post, j) implies (#[trigger] post.chains@[j]).unwrap(
        ).items@.len() == 0 by {
            if j != c {
                assert(post.chains@[j] == pre.chains@[j]);
            }
        }
    }
}

/// Whether a world point lies inside a grid cell: each cell is the
/// half-open square of one cell size centred on its centre point.
pub open spec fn world_in_cell(cell: i64, cpos: GridPosition, p: WorldPoint) -> bool {
    let h = cell as int / 2;
    &&& cpos.x * cell - h <= p.x < cpos.x * cell + (cell - h)
    &&& cpos.y * cell - h <= p.z < cpos.y * cell + (cell - h)
}

/// Whether a world point lies inside the cell `cpos` of this grid.
fn point_in_cell(grid: &WorldGrid, cpos: GridPosition, p: WorldPoint) -> (r: bool)
    requires
        cell_size_ok(grid.grid_size),
        pos_in_grid_range(cpos),
        point_in_world_range(p),
    ensures
        r == world_in_cell(grid.grid_size, cpos, p),
{
    let w: (i64, i64) = grid.grid_to_world(&cpos);
    let h: i64 = crate::units::div_nn(grid.grid_size, 2);
    w.0 - h <= p.x && p.x < w.0 + (grid.grid_size - h) && w.1 - h <= p.z && p.z < w.1 + (
    grid.grid_size - h)
}

/// Items all standing outside one grid cell.
pub open spec fn items_outside_cell(items: Seq<BeltItem>, cell: i64, cpos: GridPosition) -> bool {
    forall|i: int|
        0 <= i < items.len() ==> !world_in_cell(cell, cpos, (#[trigger] items[i]).position)
}

/// The items of a list standing outside one cell, in their original order:
/// exactly what survives the deletion of the piece on that cell.
pub open spec fn surviving_items(
    items: Seq<BeltItem>,
    cell: i64,
    cpos: GridPosition,
) -> Seq<BeltItem>
    decreases items.len(),
{
    if items.len() == 0 {
        Seq::<BeltItem>::empty()
    } else if world_in_cell(cell, cpos, items.last().position) {
        surviving_items(items.drop_last(), cell, cpos)
    } else {
        surviving_items(items.drop_last(), cell, cpos).push(items.last())
    }
}

/// Whether some piece of the list stands on the cell containing the point.
pub open spec fn in_pieces_cells(cell: i64, pieces: Seq<BeltPiece>, p: WorldPoint) -> bool {
    exists|j: int|
        0 <= j < pieces.len() && world_in_cell(cell, (#[trigger] pieces[j]).grid_position, p)
}

/// The items standing on some cell of `pieces`, in their original order.
pub open spec fn items_on_pieces(
    items: Seq<BeltItem>,
    cell: i64,
    pieces: Seq<BeltPiece>,
) -> Seq<BeltItem>
    decreases items.len(),
{
    if items.len() == 0 {
        Seq::<BeltItem>::empty()
    } else if in_pieces_cells(cell, pieces, items.last().position) {
        items_on_pieces(items.drop_last(), cell, pieces).push(items.last())
    } else {
        items_on_pieces(items.drop_last(), cell, pieces)
    }
}

/// The items standing on no cell of `pieces`, in their original order.
pub open spec fn items_off_pieces(
    items: Seq<BeltItem>,
    cell: i64,
    pieces: Seq<BeltPiece>,
) -> Seq<BeltItem>
    decreases items.len(),
{
    if items.len() == 0 {
        Seq::<BeltItem>::empty()
    } else if in_pieces_cells(cell, pieces, items.last().position) {
        items_off_pieces(items.drop_last(), cell, pieces)
    } else {
        items_off_pieces(items.drop_last(), cell, pieces).push(items.last())
    }
}

/// The items of a list standing outside the cell `cpos`: what survives the
/// deletion of the piece on that cell.
fn filter_items_not_in_cell(
    grid: &WorldGrid,
    items: &Vec<BeltItem>,
    cpos: GridPosition,
) -> (r: Vec<BeltItem>)
    requires
        cell_size_ok(grid.grid_size),
        pos_in_grid_range(cpos),
        items_placeable(items@),
    ensures
        r@ == surviving_items(items@, grid.grid_size, cpos),
        items_outside_cell(r@, grid.grid_size, cpos),
        items_placeable(r@),
        r@.len() <= items@.len(),
{
    let n: usize = items.len();
    let mut r: Vec<BeltItem> = Vec::new();
    let mut k: usize = 0;
    while k < n
        invariant
            n == items@.len(),
            0 <= k <= n,
            r@.len() <= k,
            cell_size_ok(grid.grid_size),
            pos_in_grid_range(cpos),
            items_placeable(items@),
            r@ == surviving_items(items@.take(k as int), grid.grid_size, cpos),
            items_outside_cell(r@, grid.grid_size, cpos),
            items_placeable(r@),
        decreases n - k,
    {
        let it: BeltItem = items[k];
        proof {
            assert(point_in_world_range(items@[k as int].position) && 0 < items@[k as int].item_width
                <= MAX_ITEM_WIDTH);
            assert(items@.take(k as int + 1).drop_last() =~= items@.take(k as int));
            assert(items@.take(k as int + 1).last() == items@[k as int]);
        }
        if !point_in_cell(grid, cpos, it.position) {
            r.push(it);
        }
        k += 1;
    }
    proof {
        assert(items@.take(n as int) =~= items@);
    }
    r
}

/// Splits a list of items by whether they stand on the cell of some piece
/// of `pieces`: the first result holds those that do, the second the rest.
/// Both halves keep every bound the input carried.
fn partition_items_by_cells(
    grid: &WorldGrid,
    items: &Vec<BeltItem>,
    pieces: &Vec<BeltPiece>,
    Ghost(cell): Ghost<i64>,
    Ghost(cpos): Ghost<GridPosition>,
) -> (r: (Vec<BeltItem>, Vec<BeltItem>))
    requires
        cell_size_ok(grid.grid_size),
        pieces_wf(pieces@),
        items_placeable(items@),
        items_outside_cell(items@, cell, cpos),
    ensures
        r.0@ == items_on_pieces(items@, grid.grid_size, pieces@),
        r.1@ == items_off_pieces(items@, grid.grid_size, pieces@),
        items_placeable(r.0@),
        items_placeable(r.1@),
        items_outside_cell(r.0@, cell, cpos),
        items_outside_cell(r.1@, cell, cpos),
        r.0@.len() + r.1@.len() == items@.len(),
{
    let n: usize = items.len();
    let m: usize = pieces.len();
    let mut inside: Vec<BeltItem> = Vec::new();
    let mut outside: Vec<BeltItem> = Vec::new();
    let mut k: usize = 0;
    while k < n
        invariant
            n == items@.len(),
            m == pieces@.len(),
            0 <= k <= n,
            inside@.len() + outside@.len() == k,
            cell_size_ok(grid.grid_size),
            pieces_wf(pieces@),
            items_placeable(items@),
            items_outside_cell(items@, cell, cpos),
            inside@ == items_on_pieces(items@.take(k as int), grid.grid_size, pieces@),
            outside@ == items_off_pieces(items@.take(k as int), grid.grid_size, pieces@),
            items_placeable(inside@),
            items_placeable(outside@),
            items_outside_cell(inside@, cell, cpos),
            items_outside_cell(outside@, cell, cpos),
        decreases n - k,
    {
        let it: BeltItem = items[k];
        proof {
            assert(point_in_world_range(items@[k as int].position) && 0 < items@[k as int].item_width
                <= MAX_ITEM_WIDTH);
            assert(!world_in_cell(cell, cpos, items@[k as int].position));
            assert(items@.take(k as int + 1).drop_last() =~= items@.take(k as int));
            assert(items@.take(k as int + 1).last() == items@[k as int]);
        }
        let hit: bool = any_piece_cell_contains(grid, pieces, it.position);
        if hit {
            inside.push(it);
        } else {
            outside.push(it);
        }
        k += 1;
    }
    proof {
        assert(items@.take(n as int) =~= items@);
    }
    (inside, outside)
}

/// Whether any piece of the list stands on the cell containing a point.
fn any_piece_cell_contains(grid: &WorldGrid, pieces: &Vec<BeltPiece>, p: WorldPoint) -> (r: bool)
    requires
        cell_size_ok(grid.grid_size),
        pieces_wf(pieces@),
        point_in_world_range(p),
    ensures
        r == in_pieces_cells(grid.grid_size, pieces@, p),
{
    let m: usize = pieces.len();
    let mut t: usize = 0;
    while t < m
        invariant
            m == pieces@.len(),
            0 <= t <= m,
            cell_size_ok(grid.grid_size),
            pieces_wf(pieces@),
            point_in_world_range(p),
            forall|j: int|
                0 <= j < t ==> !world_in_cell(
                    grid.grid_size,
                    (#[trigger] pieces@[j]).grid_position,
                    p,
                ),
        decreases m - t,
    {
        if point_in_cell(grid, pieces[t].grid_position, p) {
            proof {
                assert(world_in_cell(grid.grid_size, pieces@[t as int].grid_position, p));
            }
            return true;
        }
        t += 1;
    }
    false
}

/// Equal key multisets carry the outside-one-cell bound from one item list
/// to another, because an item key names the item's position.
proof fn lemma_keys_outside_cell(
    a: Seq<BeltItem>,
    b: Seq<BeltItem>,
    cell: i64,
    cpos: GridPosition,
)
    requires
        items_keys(a) == items_keys(b),
        items_outside_cell(b, cell, cpos),
    ensures
        items_outside_cell(a, cell, cpos),
{
    let f = |it: BeltItem| item_key(it);
    let fa = a.map_values(f);
    let fb = b.map_values(f);
    fa.to_multiset_ensures();
    fb.to_multiset_ensures();
    assert forall|i: int| 0 <= i < a.len() implies !world_in_cell(
        cell,
        cpos,
        (#[trigger] a[i]).position,
    ) by {
        assert(fa[i] == f(a[i]));
        assert(fa.contains(fa[i]));
        assert(fa.to_multiset().count(fa[i]) > 0);
        assert(fb.to_multiset().count(fa[i]) > 0);
        assert(fb.contains(fa[i]));
        let j = choose|j: int| 0 <= j < fb.len() && fb[j] == fa[i];
        assert(fb[j] == f(b[j]));
        assert(item_key(b[j]) == item_key(a[i]));
        assert(b[j].position == a[i].position);
        assert(!world_in_cell(cell, cpos, b[j].position));
    }
}

/// The first index at or after `k` of a piece standing for entity `e`.
pub open spec fn entity_index_from(pieces: Seq<BeltPiece>, e: u64, k: int) -> Option<int>
    decreases pieces.len() - k,
{
    if k < 0 || k >= pieces.len() {
        None
    } else if pieces[k].entity == e {
        Some(k)
    } else {
        entity_index_from(pieces, e, k + 1)
    }
}

/// The index of the first piece standing for entity `e`.
pub open spec fn entity_index_at(pieces: Seq<BeltPiece>, e: u64) -> Option<int> {
    entity_index_from(pieces, e, 0)
}

/// What `entity_index_from` answers: the found index is the first carrying
/// the entity, and a miss means no piece from `k` on carries it.
pub proof fn lemma_entity_index_from_props(pieces: Seq<BeltPiece>, e: u64, k: int)
    requires
        0 <= k <= pieces.len(),
    ensures
        match entity_index_from(pieces, e, k) {
            Some(i) => {
                &&& k <= i < pieces.len()
                &&& pieces[i].entity == e
                &&& forall|j: int| k <= j < i ==> (#[trigger] pieces[j]).entity != e
            },
            None => forall|j: int| k <= j < pieces.len() ==> (#[trigger] pieces[j]).entity != e,
        },
    decreases pieces.len() - k,
{
    if k < pieces.len() {
        if pieces[k].entity != e {
            lemma_entity_index_from_props(pieces, e, k + 1);
        }
    }
}

/// A contiguous slice of a connected chain is itself connected.
proof fn lemma_subrange_connected(pieces: Seq<BeltPiece>, a: int, b: int)
    requires
        chain_connected(pieces),
        0 <= a <= b <= pieces.len(),
    ensures
        chain_connected(pieces.subrange(a, b)),
{
    let s = pieces.subrange(a, b);
    assert forall|k: int|
        #![trigger s[k], s[k - 1]]
        0 < k < s.len() implies s[k].grid_position == forward_of(
        s[k - 1].grid_position,
        s[k - 1].grid_rotation,
    ) by {
        assert(s[k] == pieces[a + k] && s[k - 1] == pieces[a + k - 1]);
    }
}

/// What a successful splice did: which slot survives and which is
/// destroyed, the surviving chain's pieces as the exact direction-correct
/// concatenation, its geometry rebuilt over the merged pieces, the items of
/// both chains re-settled onto it with their payload keys conserved, and
/// every other slot untouched.
pub open spec fn merge_outcome(
    pre: ConveyorNetwork,
    post: ConveyorNetwork,
    primary: int,
    secondary: int,
    e: int,
) -> bool {
    let pb = chain(pre, primary);
    let sb = chain(pre, secondary);
    let feeds_start = can_feed_start(pb, sb.belt_pieces@.last());
    let merged = if feeds_start {
        sb.belt_pieces@ + pb.belt_pieces@
    } else {
        pb.belt_pieces@ + sb.belt_pieces@
    };
    let merged_items = if feeds_start {
        sb.items@ + pb.items@
    } else {
        pb.items@ + sb.items@
    };
    &&& (if feeds_start {
        e == secondary && post.chains@[primary].is_none()
    } else {
        end_can_feed(pb, sb.belt_pieces@[0]) && e == primary && post.chains@[
            secondary
        ].is_none()
    })
    &&& live(post, e)
    &&& chain(post, e).belt_pieces@ == merged
    &&& chain(post, e).segments@ == rebuilt_segments(pre, merged)
    &&& chain(post, e).connected_conveyor_belt == rebuilt_connected(pre, merged)
    &&& chain(post, e).belt_speed == (if feeds_start {
        sb.belt_speed
    } else {
        pb.belt_speed
    })
    &&& items_keys(chain(post, e).items@) == items_keys(merged_items)
    &&& chain(post, e).items@.len() == pb.items@.len() + sb.items@.len()
    &&& forall|i: int|
        0 <= i < chain(post, e).items@.len() ==> settled_on(
            #[trigger] chain(post, e).items@[i],
            chain(post, e).segments@,
        )
    &&& forall|j: int|
        0 <= j < post.chains@.len() && j != primary && j != secondary ==> post.chains@[j]
            == pre.chains@[j]
}

/// Whether a requested hand-off may go through: both slots live, and the
/// destination (the chain itself, for a self-referential bridge, ignoring
/// the item) has room at the item's position.
pub open spec fn transfer_allowed(
    n: ConveyorNetwork,
    source: int,
    item: BeltItem,
    next: int,
) -> bool {
    &&& live(n, source)
    &&& live(n, next)
    &&& if source == next {
        crate::belt::has_space_spec(
            chain(n, source),
            item.position,
            item.item_width as int,
            Some(item.item_entity),
        )
    } else {
        crate::belt::has_space_spec(chain(n, next), item.position, item.item_width as int, None)
    }
}

/// What a completed hand-off did: the item left the source list and was
/// inserted, settled onto the destination's own geometry, at the list rank
/// its landing spot earns.
pub open spec fn transfer_done(
    pre: ConveyorNetwork,
    post: ConveyorNetwork,
    source: int,
    item: BeltItem,
    next: int,
) -> bool {
    if source == next {
        let b = chain(pre, source);
        let rest = crate::belt::remove_entity(b.items@, item.item_entity);
        let idx = segment_index_spec(b, item.position).unwrap();
        &&& live(post, source)
        &&& chain(post, source).belt_pieces@ == b.belt_pieces@
        &&& chain(post, source).segments@ == b.segments@
        &&& chain(post, source).items@ == rest.insert(
            crate::belt::insert_rank(
                rest,
                idx,
                crate::segment::progress_of(b.segments@[idx], item.position),
            ),
            item_settled(b, item),
        )
    } else {
        let sb = chain(pre, source);
        let nb = chain(pre, next);
        let idx = segment_index_spec(nb, item.position).unwrap();
        &&& live(post, source)
        &&& live(post, next)
        &&& chain(post, source).belt_pieces@ == sb.belt_pieces@
        &&& chain(post, source).items@ == crate::belt::remove_entity(
            sb.items@,
            item.item_entity,
        )
        &&& chain(post, next).belt_pieces@ == nb.belt_pieces@
        &&& chain(post, next).segments@ == nb.segments@
        &&& chain(post, next).items@ == nb.items@.insert(
            crate::belt::insert_rank(
                nb.items@,
                idx,
                crate::segment::progress_of(nb.segments@[idx], item.position),
            ),
            item_settled(nb, item),
        )
    }
}

/// One chain's advance over a tick of `dt` micro-seconds: the moved item
/// list, and the items that reached the chain's end and asked to be handed
/// off.
pub open spec fn chain_advance(b: ConveyorBelt, dt: int) -> (Seq<BeltItem>, Seq<BeltItem>) {
    let adv = b.belt_speed * dt / (crate::units::SCALE as int);
    let sim = crate::tick::sim_from(
        b.segments@,
        adv,
        b.connected_conveyor_belt.is_some(),
        b.items@,
        crate::tick::init_reserved(b.segments@.len() as int),
    );
    (sim.0, crate::tick::handoff_list(sim.0, sim.2))
}

/// The first phase of a network tick: every live chain's items advanced
/// under the no-passing rules, everything else untouched.
pub open spec fn advanced_state(pre: ConveyorNetwork, mid: ConveyorNetwork, dt: int) -> bool {
    &&& mid.grid == pre.grid
    &&& mid.chains@.len() == pre.chains@.len()
    &&& forall|c: int|
        0 <= c < pre.chains@.len() && !live(pre, c) ==> (#[trigger] mid.chains@[c])
            == pre.chains@[c]
    &&& forall|c: int|
        live(pre, c) ==> {
            &&& live(mid, c)
            &&& (#[trigger] chain(mid, c)).belt_pieces@ == chain(pre, c).belt_pieces@
            &&& chain(mid, c).segments@ == chain(pre, c).segments@
            &&& chain(mid, c).belt_speed == chain(pre, c).belt_speed
            &&& chain(mid, c).connected_conveyor_belt == chain(pre, c).connected_conveyor_belt
            &&& chain(mid, c).items@ == chain_advance(chain(pre, c), dt).0
        }
}

/// The hand-off requests one chain queues during phase one: one transfer
/// per hand-off item, aimed at the connected chain, in item order.
pub open spec fn chain_requests(pre: ConveyorNetwork, dt: int, c: int) -> Seq<
    (usize, BeltItem, usize),
> {
    if live(pre, c) {
        match chain(pre, c).connected_conveyor_belt {
            Some(d) => chain_advance(chain(pre, c), dt).1.map_values(
                |it: BeltItem| (c as usize, it, d),
            ),
            None => Seq::<(usize, BeltItem, usize)>::empty(),
        }
    } else {
        Seq::<(usize, BeltItem, usize)>::empty()
    }
}

/// All the hand-off requests the slots below `c` queue, in slot order.
pub open spec fn requests_upto(pre: ConveyorNetwork, dt: int, c: int) -> Seq<
    (usize, BeltItem, usize),
>
    decreases c,
{
    if c <= 0 {
        Seq::<(usize, BeltItem, usize)>::empty()
    } else {
        requests_upto(pre, dt, c - 1) + chain_requests(pre, dt, c - 1)
    }
}

/// One attempted transfer, exactly as `handle_item_reached_other_belt`
/// settles it: carried out when allowed, a no-op otherwise, touching no
/// other slot.
pub open spec fn transfer_step(
    pre: ConveyorNetwork,
    post: ConveyorNetwork,
    rq: (usize, BeltItem, usize),
) -> bool {
    &&& post.grid == pre.grid
    &&& post.chains@.len() == pre.chains@.len()
    &&& forall|j: int|
        0 <= j < post.chains@.len() && j != rq.0 as int && j != rq.2 as int
            ==> (#[trigger] post.chains@[j]) == pre.chains@[j]
    &&& (transfer_allowed(pre, rq.0 as int, rq.1, rq.2 as int) ==> transfer_done(
        pre,
        post,
        rq.0 as int,
        rq.1,
        rq.2 as int,
    ))
    &&& (!transfer_allowed(pre, rq.0 as int, rq.1, rq.2 as int) ==> post.chains@ == pre.chains@)
}

/// The second phase of a network tick: the queued transfers attempted one
/// after another, in queue order.
pub open spec fn transfers_applied(
    mid: ConveyorNetwork,
    post: ConveyorNetwork,
    reqs: Seq<(usize, BeltItem, usize)>,
) -> bool
    decreases reqs.len(),
{
    if reqs.len() == 0 {
        post == mid
    } else {
        exists|step: ConveyorNetwork|
            transfers_applied(mid, step, reqs.drop_last()) && #[trigger] transfer_step(
                step,
                post,
                reqs.last(),
            )
    }
}

/// Extending an applied-transfers chain by one more attempted transfer.
proof fn lemma_transfers_applied_snoc(
    mid: ConveyorNetwork,
    prev: ConveyorNetwork,
    post: ConveyorNetwork,
    reqs: Seq<(usize, BeltItem, usize)>,
    rq: (usize, BeltItem, usize),
)
    requires
        transfers_applied(mid, prev, reqs),
        transfer_step(prev, post, rq),
    ensures
        transfers_applied(mid, post, reqs.push(rq)),
{
    assert(reqs.push(rq).drop_last() =~= reqs);
    assert(reqs.push(rq).last() == rq);
    assert(transfers_applied(mid, prev, reqs.push(rq).drop_last()));
    assert(transfer_step(prev, post, reqs.push(rq).last()));
    assert(reqs.push(rq).len() > 0);
}

/// What removing the piece of `entity` does to the piece lists: the head
/// or tail is dropped, a single-piece chain is destroyed, and an interior
/// removal leaves the prefix in place and spawns a new chain for the
/// suffix; every other slot is untouched.
pub open spec fn removal_outcome(pre: ConveyorNetwork, post: ConveyorNetwork, entity: u64) -> bool {
    let c = chain_with_entity_spec(pre, entity).unwrap();
    let pcs = chain(pre, c).belt_pieces@;
    let k = entity_index_at(pcs, entity).unwrap();
    &&& chain_with_entity_spec(pre, entity).is_some()
    &&& entity_index_at(pcs, entity).is_some()
    &&& if pcs.len() <= 1 {
        &&& post.chains@.len() == pre.chains@.len()
        &&& post.chains@[c].is_none()
        &&& forall|j: int|
            0 <= j < post.chains@.len() && j != c ==> post.chains@[j] == pre.chains@[j]
    } else if k == 0 {
        &&& post.chains@.len() == pre.chains@.len()
        &&& live(post, c)
        &&& chain(post, c).belt_pieces@ == pcs.subrange(1, pcs.len() as int)
        &&& forall|j: int|
            0 <= j < post.chains@.len() && j != c ==> post.chains@[j] == pre.chains@[j]
    } else if k == pcs.len() - 1 {
        &&& post.chains@.len() == pre.chains@.len()
        &&& live(post, c)
        &&& chain(post, c).belt_pieces@ == pcs.subrange(0, k)
        &&& forall|j: int|
            0 <= j < post.chains@.len() && j != c ==> post.chains@[j] == pre.chains@[j]
    } else {
        &&& post.chains@.len() == pre.chains@.len() + 1
        &&& live(post, c)
        &&& chain(post, c).belt_pieces@ == pcs.subrange(0, k)
        &&& live(post, pre.chains@.len() as int)
        &&& chain(post, pre.chains@.len() as int).belt_pieces@ == pcs.subrange(
            k + 1,
            pcs.len() as int,
        )
        &&& forall|j: int|
            0 <= j < pre.chains@.len() && j != c ==> post.chains@[j] == pre.chains@[j]
    }
}

/// What a fully successful removal guarantees of the surviving items: every
/// item of each surviving half is settled on that half's rebuilt geometry
/// and stands outside the removed piece's cell.
pub open spec fn removal_items_ok(pre: ConveyorNetwork, post: ConveyorNetwork, entity: u64) -> bool {
    let c = chain_with_entity_spec(pre, entity).unwrap();
    let pcs = chain(pre, c).belt_pieces@;
    let k = entity_index_at(pcs, entity).unwrap();
    let removed = pcs[k].grid_position;
    let d = pre.chains@.len() as int;
    let cell = pre.grid.grid_size;
    let survivors = surviving_items(chain(pre, c).items@, cell, removed);
    let interior = pcs.len() > 1 && 0 < k < pcs.len() - 1;
    &&& (live(post, c) ==> items_outside_cell(chain(post, c).items@, cell, removed) && (forall|
        i: int,
    |
        0 <= i < chain(post, c).items@.len() ==> settled_on(
            #[trigger] chain(post, c).items@[i],
            chain(post, c).segments@,
        )))
    &&& (interior && live(post, d) ==> items_outside_cell(chain(post, d).items@, cell, removed)
        && (forall|i: int|
        0 <= i < chain(post, d).items@.len() ==> settled_on(
            #[trigger] chain(post, d).items@[i],
            chain(post, d).segments@,
        )))
    &&& (!interior && live(post, c) ==> items_keys(chain(post, c).items@) == items_keys(
        survivors,
    ))
    &&& (interior && live(post, c) ==> items_keys(chain(post, c).items@) == items_keys(
        items_on_pieces(survivors, cell, pcs.subrange(0, k)),
    ))
    &&& (interior && live(post, d) ==> items_keys(chain(post, d).items@) == items_keys(
        items_off_pieces(survivors, cell, pcs.subrange(0, k)),
    ))
}

/// What `chain_with_entity_from` answers, when it finds a slot: a live
/// chain holding the entity.
pub proof fn lemma_chain_with_entity_props(n: ConveyorNetwork, e: u64, c: int)
    requires
        0 <= c <= n.chains@.len(),
    ensures
        match chain_with_entity_from(n, e, c) {
            Some(j) => c <= j < n.chains@.len() && live(n, j) && chain_has_entity(chain(n, j), e),
            None => true,
        },
    decreases n.chains@.len() - c,
{
    if c < n.chains@.len() {
        if !(n.chains@[c].is_some() && chain_has_entity(n.chains@[c].unwrap(), e)) {
            lemma_chain_with_entity_props(n, e, c + 1);
        }
    }
}

/// Position lookups read only slot liveness and piece lists, so two
/// networks agreeing on those answer alike.
proof fn lemma_lookup_same(n1: ConveyorNetwork, n2: ConveyorNetwork, pos: GridPosition, c: int)
    requires
        n1.chains@.len() == n2.chains@.len(),
        forall|j: int| 0 <= j < n1.chains@.len() ==> live(n1, j) == live(n2, j),
        forall|j: int|
            live(n1, j) ==> (#[trigger] chain(n1, j)).belt_pieces@ == chain(n2, j).belt_pieces@,
        0 <= c <= n1.chains@.len(),
    ensures
        chain_at_pos_from(n1, pos, c) == chain_at_pos_from(n2, pos, c),
    decreases n1.chains@.len() - c,
{
    if c < n1.chains@.len() {
        assert(live(n1, c) == live(n2, c));
        if n1.chains@[c].is_some() {
            assert(chain(n1, c).belt_pieces@ == chain(n2, c).belt_pieces@);
            assert(chain_has_piece_at(n1.chains@[c].unwrap(), pos) == chain_has_piece_at(
                n2.chains@[c].unwrap(),
                pos,
            ));
        }
        if !(n1.chains@[c].is_some() && chain_has_piece_at(n1.chains@[c].unwrap(), pos)) {
            lemma_lookup_same(n1, n2, pos, c + 1);
        }
    }
}

/// The rebuilt geometry of a piece list depends only on the grid and on the
/// other chains' liveness and piece lists, so rebuilding is insensitive to
/// a slot's own derived state.
proof fn lemma_rebuilt_same(n1: ConveyorNetwork, n2: ConveyorNetwork, pieces: Seq<BeltPiece>)
    requires
        n1.grid == n2.grid,
        n1.chains@.len() == n2.chains@.len(),
        forall|j: int| 0 <= j < n1.chains@.len() ==> live(n1, j) == live(n2, j),
        forall|j: int|
            live(n1, j) ==> (#[trigger] chain(n1, j)).belt_pieces@ == chain(n2, j).belt_pieces@,
        pieces.len() >= 1,
    ensures
        rebuilt_segments(n1, pieces) == rebuilt_segments(n2, pieces),
        rebuilt_connected(n1, pieces) == rebuilt_connected(n2, pieces),
{
    let tail = pieces.last();
    let fwd = forward_of(tail.grid_position, tail.grid_rotation);
    lemma_lookup_same(n1, n2, fwd, 0);
    match chain_at_position_spec(n1, fwd) {
        None => {
        },
        Some(j) => {
            lemma_chain_at_pos_props(n1, fwd, 0);
            assert(chain(n1, j).belt_pieces@ == chain(n2, j).belt_pieces@);
        },
    }
}

/// Lifts a known piece-bearing slot into the two-place witness the
/// placement contract's aborted-pass case asks for.
proof fn lemma_piece_witness(n: ConveyorNetwork, c: int, piece: BeltPiece)
    requires
        live(n, c),
        exists|k: int|
            0 <= k < chain(n, c).belt_pieces@.len() && #[trigger] chain(n, c).belt_pieces@[k]
                == piece,
    ensures
        exists|c2: int, k2: int|
            live(n, c2) && 0 <= k2 < chain(n, c2).belt_pieces@.len() && #[trigger] chain(
                n,
                c2,
            ).belt_pieces@[k2] == piece,
{
    let k0 = choose|k: int|
        0 <= k < chain(n, c).belt_pieces@.len() && #[trigger] chain(n, c).belt_pieces@[k] == piece;
    assert(live(n, c) && 0 <= k0 < chain(n, c).belt_pieces@.len() && chain(n, c).belt_pieces@[k0]
        == piece);
}

/// A network with no items anywhere: placement in such a network never
/// meets a re-settling failure.
pub open spec fn all_itemless(n: ConveyorNetwork) -> bool {
    forall|c: int| live(n, c) ==> (#[trigger] n.chains@[c]).unwrap().items@.len() == 0
}

/// Adds a found neighbour slot to the merge work-list, skipping misses and
/// slots already listed; every listed slot stays below `bound`.
fn push_candidate(v: &mut Vec<usize>, o: Option<usize>, bound: usize)
    requires
        forall|i: int| 0 <= i < old(v)@.len() ==> (#[trigger] old(v)@[i]) < bound,
        o.is_some() ==> o.unwrap() < bound,
    ensures
        forall|i: int| 0 <= i < final(v)@.len() ==> (#[trigger] final(v)@[i]) < bound,
{
    let j: usize = match o {
        None => {
            return ;
        },
        Some(j) => j,
    };
    let n: usize = v.len();
    let mut k: usize = 0;
    let mut dup: bool = false;
    while k < n
        invariant
            n == v@.len(),
            0 <= k <= n,
        decreases n - k,
    {
        if v[k] == j {
            dup = true;
        }
        k += 1;
    }
    if !dup {
        v.push(j);
    }
}

/// Chain non-emptiness law: a conveyor chain exists exactly as long as its
/// piece list is non-empty.  Every live slot of a well-formed network holds
/// a chain with at least one piece; an operation that would leave a chain
/// empty destroys the slot instead.
pub proof fn lemma_chain_nonempty(n: ConveyorNetwork, c: int)
    requires
        net_inv(n),
        live(n, c),
    ensures
        chain(n, c).belt_pieces@.len() > 0,
{
    assert(chain_ok(n, n.chains@[c].unwrap()));
}

/// Merge symmetry law: a successful splice makes the surviving chain's
/// pieces one chain's list followed by the other's (`check_for_conveyor_merge`
/// pins which), so whichever chain plays the primary role, the merged
/// membership is the same multiset of pieces.
pub proof fn lemma_merge_symmetric(a: Seq<BeltPiece>, b: Seq<BeltPiece>)
    ensures
        (a + b).to_multiset() == (b + a).to_multiset(),
{
    vstd::seq_lib::lemma_multiset_commutative(a, b);
    vstd::seq_lib::lemma_multiset_commutative(b, a);
    assert(a.to_multiset().add(b.to_multiset()) =~= b.to_multiset().add(a.to_multiset()));
}

/// Merge role-swap law, over two runs: splicing the same two chains with
/// either role assignment leaves one surviving slot whose piece membership
/// is the same multiset — the feeding chain's pieces precede the fed
/// chain's whichever argument plays the primary.
pub proof fn lemma_merge_role_symmetric(
    pre: ConveyorNetwork,
    post1: ConveyorNetwork,
    post2: ConveyorNetwork,
    a: int,
    b: int,
    e1: int,
    e2: int,
)
    requires
        merge_outcome(pre, post1, a, b, e1),
        merge_outcome(pre, post2, b, a, e2),
    ensures
        chain(post1, e1).belt_pieces@.to_multiset() == chain(post2, e2).belt_pieces@.to_multiset(),
        e1 == a || e1 == b,
        e2 == a || e2 == b,
{
    lemma_merge_symmetric(chain(pre, a).belt_pieces@, chain(pre, b).belt_pieces@);
}

/// Split exactness law: removing an interior piece partitions the chain
/// into exactly the prefix before it and the suffix after it
/// (`remove_piece` gives the chain the prefix and a fresh chain the
/// suffix), so no piece is lost or duplicated and the removed piece is gone
/// entirely.
pub proof fn lemma_split_partition(pcs: Seq<BeltPiece>, k: int)
    requires
        0 <= k < pcs.len(),
    ensures
        pcs.subrange(0, k) + seq![pcs[k]] + pcs.subrange(k + 1, pcs.len() as int) == pcs,
{
    assert(pcs.subrange(0, k) + seq![pcs[k]] + pcs.subrange(k + 1, pcs.len() as int) =~= pcs);
}

/// Updating two slots keeps the network invariant as long as both land in
/// good standing (an emptied slot is always in good standing).
proof fn lemma_inv_after_set2(pre: ConveyorNetwork, post: ConveyorNetwork, c1: int, c2: int)
    requires
        net_inv(pre),
        post.grid == pre.grid,
        post.chains@.len() == pre.chains@.len(),
        forall|j: int|
            0 <= j < post.chains@.len() && j != c1 && j != c2 ==> post.chains@[j]
                == pre.chains@[j] || (#[trigger] post.chains@[j]).is_none(),
        live(post, c1) ==> chain_ok(post, post.chains@[c1].unwrap()),
        live(post, c2) ==> chain_ok(post, post.chains@[c2].unwrap()),
    ensures
        net_inv(post),
{
    assert forall|j: int| live(post, j) implies chain_ok(
        post,
        #[trigger] post.chains@[j].unwrap(),
    ) by {
        if j != c1 && j != c2 {
            assert(post.chains@[j] == pre.chains@[j]);
            assert(chain_ok(pre, pre.chains@[j].unwrap()));
        }
    }
}

impl ConveyorNetwork {
    /// The chain a fresh rebuild would give the pieces: segments derived
    /// from the grid geometry, a connector and connected-chain reference
    /// when a bridgeable neighbour sits forward of the tail, and every item
    /// re-settled onto the new geometry, in their given order.  Fails with
    /// `ItemOffSegments` exactly when some item's position lies on no
    /// rebuilt non-connector segment.
    fn refresh_chain(
        &self,
        pieces: Vec<BeltPiece>,
        items: &Vec<BeltItem>,
        speed: i64,
    ) -> (r: Result<ConveyorBelt, BeltError>)
        requires
            net_inv(*self),
            pieces@.len() >= 1,
            pieces_wf(pieces@),
            chain_connected(pieces@),
            0 <= speed <= crate::units::MAX_SPEED,
            items_placeable(items@),
        ensures
            match r {
                Ok(b) => {
                    &&& b.belt_pieces@ == pieces@
                    &&& b.belt_speed == speed
                    &&& b.segments@ == rebuilt_segments(*self, pieces@)
                    &&& b.connected_conveyor_belt == rebuilt_connected(*self, pieces@)
                    &&& belt_inv(b)
                    &&& chain_connected(b.belt_pieces@)
                    &&& (match b.connected_conveyor_belt {
                        Some(j) => j < self.chains@.len(),
                        None => true,
                    })
                    &&& items_keys(b.items@) == items_keys(items@)
                    &&& b.items@.len() == items@.len()
                    &&& forall|i: int|
                        0 <= i < b.items@.len() ==> settled_on(#[trigger] b.items@[i], b.segments@)
                },
                Err(e) => {
                    &&& e == BeltError::ItemOffSegments
                    &&& exists|i: int|
                        0 <= i < items@.len() && crate::belt::seg_index_from(
                            rebuilt_segments(*self, pieces@),
                            (#[trigger] items@[i]).position,
                            0,
                        ).is_none()
                },
            },
    {
        let cell: i64 = self.grid.grid_size;
        let mut segments: Vec<ConveyorSegment> = build_segments(&pieces, &self.grid);
        let tail: BeltPiece = pieces[pieces.len() - 1];
        let fwd: GridPosition = tail.grid_position.get_relative_forward(tail.grid_rotation);
        let mut connected: Option<usize> = None;
        let found: Option<usize> = self.chain_at_position(&fwd);
        proof {
            lemma_chain_at_pos_props(*self, fwd, 0);
        }
        match found {
            None => {
            },
            Some(j) => {
                let nb = self.get_chain(j);
                let jb: &ConveyorBelt = nb.unwrap();
                let p: BeltPiece = jb.get_belt_piece_at_position(&fwd).unwrap();
                proof {
                    crate::belt::lemma_piece_index_from_props(jb.belt_pieces@, fwd, 0);
                }
                if p.grid_rotation.difference(tail.grid_rotation) <= 1 {
                    let start: WorldPoint = segments[segments.len() - 1].end_position();
                    let w: (i64, i64) = self.grid.grid_to_world(&p.grid_position);
                    let seg = ConveyorSegment {
                        start,
                        end: WorldPoint { x: w.0, z: w.1 },
                        dir: tail.grid_rotation,
                        is_connector: true,
                    };
                    proof {
                        lemma_connector_wf(tail, p, cell);
                        assert(seg == connector_seg(
                            center_of(tail, cell),
                            p,
                            tail.grid_rotation,
                            cell,
                        ));
                        assert(segments@.push(seg) == rebuilt_segments(*self, pieces@));
                    }
                    segments.push(seg);
                    connected = Some(j);
                }
            },
        }
        proof {
            assert(segments@ == rebuilt_segments(*self, pieces@));
            assert(connected == rebuilt_connected(*self, pieces@));
            assert(segments_wf(segments@));
        }
        let ghost pieces_view = pieces@;
        let ghost segs_view = segments@;
        let mut b = ConveyorBelt {
            belt_pieces: pieces,
            items: Vec::new(),
            segments,
            belt_speed: speed,
            connected_conveyor_belt: connected,
        };
        let n: usize = items.len();
        let mut k: usize = 0;
        proof {
            assert(items@.take(0) =~= b.items@);
        }
        while k < n
            invariant
                n == items@.len(),
                0 <= k <= n,
                items_placeable(items@),
                belt_inv(b),
                b.belt_pieces@ == pieces_view,
                pieces_view == pieces@,
                b.segments@ == segs_view,
                segs_view == rebuilt_segments(*self, pieces_view),
                b.belt_speed == speed,
                b.connected_conveyor_belt == connected,
                b.items@.len() == k,
                items_keys(b.items@) == items_keys(items@.take(k as int)),
                forall|i: int|
                    0 <= i < b.items@.len() ==> settled_on(#[trigger] b.items@[i], b.segments@),
            decreases n - k,
        {
            let it: BeltItem = items[k];
            let ghost pre_b = b;
            let res = b.insert_item(&it);
            match res {
                Ok(()) => {
                    proof {
                        lemma_resettle_step(pre_b, b, it, items@.take(k as int));
                        assert(items@.take(k as int + 1) =~= items@.take(k as int).push(it));
                    }
                },
                Err(e) => {
                    proof {
                        assert(crate::belt::seg_index_from(
                            rebuilt_segments(*self, pieces_view),
                            items@[k as int].position,
                            0,
                        ).is_none());
                    }
                    return Err(e);
                },
            }
            k += 1;
        }
        proof {
            assert(items@.take(n as int) =~= items@);
        }
        Ok(b)
    }

    /// Rebuilds slot `c`'s segments from its pieces, re-derives its bridge
    /// into a neighbouring chain, and re-settles every item onto the new
    /// geometry.  Fails with `ItemOffSegments`, leaving the network
    /// untouched, exactly when some item's position lies on no rebuilt
    /// non-connector segment.
    pub fn rebuild_chain_segments(&mut self, c: usize) -> (r: Result<(), BeltError>)
        requires
            net_inv(*old(self)),
            live(*old(self), c as int),
        ensures
            net_inv(*final(self)),
            final(self).grid == old(self).grid,
            final(self).chains@.len() == old(self).chains@.len(),
            forall|j: int|
                0 <= j < final(self).chains@.len() && j != c as int ==> final(self).chains@[j]
                    == old(self).chains@[j],
            live(*final(self), c as int),
            match r {
                Ok(()) => {
                    let ob = chain(*old(self), c as int);
                    let nb = chain(*final(self), c as int);
                    &&& nb.belt_pieces@ == ob.belt_pieces@
                    &&& nb.belt_speed == ob.belt_speed
                    &&& nb.segments@ == rebuilt_segments(*old(self), ob.belt_pieces@)
                    &&& nb.connected_conveyor_belt == rebuilt_connected(
                        *old(self),
                        ob.belt_pieces@,
                    )
                    &&& items_keys(nb.items@) == items_keys(ob.items@)
                    &&& nb.items@.len() == ob.items@.len()
                    &&& forall|i: int|
                        0 <= i < nb.items@.len() ==> settled_on(
                            #[trigger] nb.items@[i],
                            nb.segments@,
                        )
                },
                Err(e) => {
                    &&& e == BeltError::ItemOffSegments
                    &&& *final(self) == *old(self)
                    &&& exists|i: int|
                        0 <= i < chain(*old(self), c as int).items@.len()
                            && crate::belt::seg_index_from(
                            rebuilt_segments(
                                *old(self),
                                chain(*old(self), c as int).belt_pieces@,
                            ),
                            (#[trigger] chain(*old(self), c as int).items@[i]).position,
                            0,
                        ).is_none()
                },
            },
    {
        let (pieces, items, speed): (Vec<BeltPiece>, Vec<BeltItem>, i64) = {
            let ob: &ConveyorBelt = self.get_chain(c).unwrap();
            (copy_pieces(&ob.belt_pieces), copy_items(&ob.items), ob.belt_speed)
        };
        let res = self.refresh_chain(pieces, &items, speed);
        match res {
            Ok(nb) => {
                self.chains.set(c, Some(nb));
                proof {
                    lemma_inv_after_set(*old(self), *self, c as int);
                }
                Ok(())
            },
            Err(e) => Err(e),
        }
    }

    /// Attempts to splice the chains in slots `primary` and `secondary`.
    ///
    /// When the secondary chain's tail can feed the primary's head, the
    /// secondary absorbs the primary's pieces and the primary slot is
    /// destroyed; when the primary's tail can feed the secondary's head,
    /// the roles are the reverse.  The surviving chain's pieces are exactly
    /// the feeding chain's followed by the fed chain's, its geometry is
    /// rebuilt, and the items of both chains are re-settled onto it.  When
    /// neither end matches, nothing changes.  Re-settling an item whose
    /// position lies on no merged segment fails with `ItemOffSegments`,
    /// leaving the network untouched.
    pub fn check_for_conveyor_merge(&mut self, primary: usize, secondary: usize) -> (r: Result<
        Option<usize>,
        BeltError,
    >)
        requires
            net_inv(*old(self)),
            live(*old(self), primary as int),
            live(*old(self), secondary as int),
            primary != secondary,
        ensures
            net_inv(*final(self)),
            final(self).grid == old(self).grid,
            final(self).chains@.len() == old(self).chains@.len(),
            match r {
                Ok(ro) => {
                    let pb = chain(*old(self), primary as int);
                    let sb = chain(*old(self), secondary as int);
                    match ro {
                        Some(e) => merge_outcome(
                            *old(self),
                            *final(self),
                            primary as int,
                            secondary as int,
                            e as int,
                        ),
                        None => {
                            &&& !can_feed_start(pb, sb.belt_pieces@.last())
                            &&& !end_can_feed(pb, sb.belt_pieces@[0])
                            &&& *final(self) == *old(self)
                        },
                    }
                },
                Err(e) => {
                    &&& e == BeltError::ItemOffSegments
                    &&& *final(self) == *old(self)
                    &&& chain(*old(self), primary as int).items@.len() + chain(
                        *old(self),
                        secondary as int,
                    ).items@.len() > 0
                },
            },
            chain(*old(self), primary as int).items@.len() == 0 && chain(
                *old(self),
                secondary as int,
            ).items@.len() == 0 ==> r is Ok,
    {
        let (p_pieces, p_items, p_speed): (Vec<BeltPiece>, Vec<BeltItem>, i64) = {
            let pb: &ConveyorBelt = self.get_chain(primary).unwrap();
            (copy_pieces(&pb.belt_pieces), copy_items(&pb.items), pb.belt_speed)
        };
        let (s_pieces, s_items, s_speed): (Vec<BeltPiece>, Vec<BeltItem>, i64) = {
            let sb: &ConveyorBelt = self.get_chain(secondary).unwrap();
            (copy_pieces(&sb.belt_pieces), copy_items(&sb.items), sb.belt_speed)
        };
        let secondary_end: BeltPiece = s_pieces[s_pieces.len() - 1];
        let secondary_start: BeltPiece = s_pieces[0];
        let feeds_start: bool = {
            let pb: &ConveyorBelt = self.get_chain(primary).unwrap();
            pb.can_connect_to_start_piece(&secondary_end)
        };
        if feeds_start {
            let mut merged_pieces: Vec<BeltPiece> = s_pieces;
            let mut tail_pieces: Vec<BeltPiece> = p_pieces;
            proof {
                lemma_concat_connected(merged_pieces@, tail_pieces@);
            }
            merged_pieces.append(&mut tail_pieces);
            let mut merged_items: Vec<BeltItem> = s_items;
            let mut tail_items: Vec<BeltItem> = p_items;
            merged_items.append(&mut tail_items);
            let res = self.refresh_chain(merged_pieces, &merged_items, s_speed);
            match res {
                Ok(nb) => {
                    self.chains.set(secondary, Some(nb));
                    self.chains.set(primary, None);
                    proof {
                        lemma_inv_after_set(*old(self), *self, secondary as int);
                    }
                    Ok(Some(secondary))
                },
                Err(e) => Err(e),
            }
        } else {
            let feeds_end: bool = {
                let pb: &ConveyorBelt = self.get_chain(primary).unwrap();
                pb.end_piece_can_connect_to(&secondary_start)
            };
            if feeds_end {
                let mut merged_pieces: Vec<BeltPiece> = p_pieces;
                let mut tail_pieces: Vec<BeltPiece> = s_pieces;
                proof {
                    lemma_concat_connected(merged_pieces@, tail_pieces@);
                }
                merged_pieces.append(&mut tail_pieces);
                let mut merged_items: Vec<BeltItem> = p_items;
                let mut tail_items: Vec<BeltItem> = s_items;
                merged_items.append(&mut tail_items);
                let res = self.refresh_chain(merged_pieces, &merged_items, p_speed);
                match res {
                    Ok(nb) => {
                        self.chains.set(primary, Some(nb));
                        self.chains.set(secondary, None);
                        proof {
                            lemma_inv_after_set(*old(self), *self, primary as int);
                        }
                        Ok(Some(primary))
                    },
                    Err(e) => Err(e),
                }
            } else {
                Ok(None)
            }
        }
    }

    /// Places a belt piece: spawns a singleton chain for it, splices every
    /// adjacent, aligned chain into one, and rebuilds the geometry of the
    /// surviving chain and of the touched-but-unmerged neighbours.  Returns
    /// the slot of the chain that now carries the piece.
    ///
    /// Fails with `PositionOccupied`, changing nothing, exactly when a live
    /// chain already has a piece on the cell.  Fails with `ItemOffSegments`
    /// when re-settling an item onto rebuilt geometry finds its position on
    /// no segment; the piece stays placed and the network invariant holds,
    /// but the merge pass stops where the desynchronization surfaced.  On a
    /// free cell in a network without items, success is guaranteed.
    pub fn place_piece(
        &mut self,
        entity: u64,
        grid_position: GridPosition,
        grid_rotation: GridRotation,
    ) -> (r: Result<usize, BeltError>)
        requires
            net_inv(*old(self)),
            pos_in_grid_range(grid_position),
        ensures
            net_inv(*final(self)),
            final(self).grid == old(self).grid,
            match r {
                Ok(c) => {
                    &&& chain_at_position_spec(*old(self), grid_position).is_none()
                    &&& final(self).chains@.len() == old(self).chains@.len() + 1
                    &&& live(*final(self), c as int)
                    &&& exists|k: int|
                        0 <= k < chain(*final(self), c as int).belt_pieces@.len() && #[trigger] chain(
                            *final(self),
                            c as int,
                        ).belt_pieces@[k] == (BeltPiece { entity, grid_rotation, grid_position })
                    &&& chain(*final(self), c as int).segments@ == rebuilt_segments(
                        *final(self),
                        chain(*final(self), c as int).belt_pieces@,
                    )
                    &&& chain(*final(self), c as int).connected_conveyor_belt == rebuilt_connected(
                        *final(self),
                        chain(*final(self), c as int).belt_pieces@,
                    )
                    &&& forall|i: int|
                        0 <= i < chain(*final(self), c as int).items@.len() ==> settled_on(
                            #[trigger] chain(*final(self), c as int).items@[i],
                            chain(*final(self), c as int).segments@,
                        )
                },
                Err(e) => {
                    &&& (e == BeltError::PositionOccupied || e == BeltError::ItemOffSegments)
                    &&& (e == BeltError::PositionOccupied <==> chain_at_position_spec(
                        *old(self),
                        grid_position,
                    ).is_some())
                    &&& (e == BeltError::PositionOccupied ==> *final(self) == *old(self))
                    &&& (e == BeltError::ItemOffSegments ==> final(self).chains@.len() == old(
                        self,
                    ).chains@.len() + 1 && exists|c2: int, k2: int|
                        live(*final(self), c2) && 0 <= k2 < chain(
                            *final(self),
                            c2,
                        ).belt_pieces@.len() && #[trigger] chain(*final(self), c2).belt_pieces@[k2]
                            == (BeltPiece { entity, grid_rotation, grid_position }))
                },
            },
            chain_at_position_spec(*old(self), grid_position).is_none() && all_itemless(*old(self))
                ==> r.is_ok(),
    {
        let occupied: Option<usize> = self.chain_at_position(&grid_position);
        match occupied {
            Some(_) => {
                return Err(BeltError::PositionOccupied);
            },
            None => {
            },
        }
        let piece = BeltPiece { entity, grid_rotation, grid_position };
        let c0: usize = self.chains.len();
        self.chains.push(Some(ConveyorBelt::new(piece)));
        proof {
            assert forall|j: int| live(*self, j) implies chain_ok(
                *self,
                #[trigger] self.chains@[j].unwrap(),
            ) by {
                if j < old(self).chains@.len() {
                    assert(self.chains@[j] == old(self).chains@[j]);
                    assert(chain_ok(*old(self), old(self).chains@[j].unwrap()));
                }
            }
            assert(chain(*self, c0 as int).belt_pieces@[0] == piece);
        }
        let mut cands: Vec<usize> = Vec::new();
        let fwd: GridPosition = grid_position.get_relative_forward(grid_rotation);
        let back: GridPosition = grid_position.get_relative_back(grid_rotation);
        let left: GridPosition = grid_position.get_relative_left(grid_rotation);
        let right: GridPosition = grid_position.get_relative_right(grid_rotation);
        let bound: usize = self.chains.len();
        let cf: Option<usize> = self.chain_at_position(&fwd);
        let cb: Option<usize> = self.chain_at_position(&back);
        let cl: Option<usize> = self.chain_at_position(&left);
        let cr: Option<usize> = self.chain_at_position(&right);
        proof {
            lemma_chain_at_pos_props(*self, fwd, 0);
            lemma_chain_at_pos_props(*self, back, 0);
            lemma_chain_at_pos_props(*self, left, 0);
            lemma_chain_at_pos_props(*self, right, 0);
        }
        push_candidate(&mut cands, cf, bound);
        push_candidate(&mut cands, cb, bound);
        push_candidate(&mut cands, cl, bound);
        push_candidate(&mut cands, cr, bound);
        let mut primary: usize = c0;
        let nc: usize = cands.len();
        let mut t: usize = 0;
        while t < nc
            invariant
                nc == cands@.len(),
                0 <= t <= nc,
                net_inv(*self),
                self.grid == old(self).grid,
                self.chains@.len() == old(self).chains@.len() + 1,
                forall|i: int| 0 <= i < cands@.len() ==> (#[trigger] cands@[i]) < self.chains@.len(),
                (primary as int) < self.chains@.len(),
                live(*self, primary as int),
                exists|k: int|
                    0 <= k < chain(*self, primary as int).belt_pieces@.len() && #[trigger] chain(
                        *self,
                        primary as int,
                    ).belt_pieces@[k] == (BeltPiece { entity, grid_rotation, grid_position }),
                all_itemless(*old(self)) ==> all_itemless(*self),
                chain_at_position_spec(*old(self), grid_position).is_none(),
            decreases nc - t,
        {
            let cand: usize = cands[t];
            if cand != primary {
                let cand_live: bool = self.get_chain(cand).is_some();
                if cand_live {
                    let ghost pre = *self;
                    let ghost pre_primary = primary;
                    let res = self.check_for_conveyor_merge(primary, cand);
                    match res {
                        Ok(Some(e)) => {
                            proof {
                                lemma_after_merge(
                                    pre,
                                    *self,
                                    pre_primary as int,
                                    cand as int,
                                    e as int,
                                    (BeltPiece { entity, grid_rotation, grid_position }),
                                );
                            }
                            primary = e;
                        },
                        Ok(None) => {
                            let ghost pre2 = *self;
                            let rr = self.rebuild_chain_segments(cand);
                            match rr {
                                Ok(()) => {
                                    proof {
                                        lemma_after_rebuild(
                                            pre2,
                                            *self,
                                            cand as int,
                                            primary as int,
                                            (BeltPiece { entity, grid_rotation, grid_position }),
                                        );
                                    }
                                },
                                Err(e2) => {
                                    proof {
                                        if all_itemless(pre2) {
                                            assert(chain(pre2, cand as int).items@.len() == 0);
                                        }
                                        lemma_piece_witness(
                                            *self,
                                            primary as int,
                                            (BeltPiece { entity, grid_rotation, grid_position }),
                                        );
                                    }
                                    return Err(e2);
                                },
                            }
                        },
                        Err(e) => {
                            proof {
                                if all_itemless(pre) {
                                    assert(chain(pre, pre_primary as int).items@.len() == 0);
                                    assert(chain(pre, cand as int).items@.len() == 0);
                                }
                                lemma_piece_witness(
                                    *self,
                                    primary as int,
                                    (BeltPiece { entity, grid_rotation, grid_position }),
                                );
                            }
                            return Err(e);
                        },
                    }
                }
            }
            t += 1;
        }
        let ghost pre3 = *self;
        let rr = self.rebuild_chain_segments(primary);
        match rr {
            Ok(()) => {
                proof {
                    lemma_after_rebuild(
                        pre3,
                        *self,
                        primary as int,
                        primary as int,
                        (BeltPiece { entity, grid_rotation, grid_position }),
                    );
                    assert forall|j: int|
                        0 <= j < pre3.chains@.len() implies live(pre3, j) == live(*self, j) by {
                        if j != primary as int {
                            assert(self.chains@[j] == pre3.chains@[j]);
                        }
                    }
                    assert forall|j: int| live(pre3, j) implies (#[trigger] chain(
                        pre3,
                        j,
                    )).belt_pieces@ == chain(*self, j).belt_pieces@ by {
                        if j != primary as int {
                            assert(self.chains@[j] == pre3.chains@[j]);
                        }
                    }
                    lemma_rebuilt_same(pre3, *self, chain(*self, primary as int).belt_pieces@);
                }
                Ok(primary)
            },
            Err(e) => {
                proof {
                    if all_itemless(pre3) {
                        assert(chain(pre3, primary as int).items@.len() == 0);
                    }
                    lemma_piece_witness(
                        *self,
                        primary as int,
                        (BeltPiece { entity, grid_rotation, grid_position }),
                    );
                }
                Err(e)
            },
        }
    }

    /// Rebuilds slot `c` around its current pieces with an externally given
    /// item list: the splitting and deletion paths hand the surviving items
    /// in from outside.
    fn rebuild_with_items(&mut self, c: usize, items: &Vec<BeltItem>) -> (r: Result<
        (),
        BeltError,
    >)
        requires
            net_inv(*old(self)),
            live(*old(self), c as int),
            items_placeable(items@),
        ensures
            net_inv(*final(self)),
            final(self).grid == old(self).grid,
            final(self).chains@.len() == old(self).chains@.len(),
            forall|j: int|
                0 <= j < final(self).chains@.len() && j != c as int ==> final(self).chains@[j]
                    == old(self).chains@[j],
            live(*final(self), c as int),
            chain(*final(self), c as int).belt_pieces@ == chain(
                *old(self),
                c as int,
            ).belt_pieces@,
            match r {
                Ok(()) => {
                    let nb = chain(*final(self), c as int);
                    &&& items_keys(nb.items@) == items_keys(items@)
                    &&& nb.items@.len() == items@.len()
                    &&& forall|i: int|
                        0 <= i < nb.items@.len() ==> settled_on(
                            #[trigger] nb.items@[i],
                            nb.segments@,
                        )
                },
                Err(e) => {
                    &&& e == BeltError::ItemOffSegments
                    &&& *final(self) == *old(self)
                    &&& items@.len() > 0
                },
            },
    {
        let (pieces, speed): (Vec<BeltPiece>, i64) = {
            let ob: &ConveyorBelt = self.get_chain(c).unwrap();
            (copy_pieces(&ob.belt_pieces), ob.belt_speed)
        };
        let res = self.refresh_chain(pieces, items, speed);
        match res {
            Ok(nb) => {
                self.chains.set(c, Some(nb));
                proof {
                    lemma_inv_after_set(*old(self), *self, c as int);
                }
                Ok(())
            },
            Err(e) => Err(e),
        }
    }

    /// Removes the piece standing for `entity` from its chain.
    ///
    /// Removing the head or the tail shortens the chain; removing its only
    /// piece destroys it; removing an interior piece keeps the prefix in the
    /// chain's own slot and spawns a new chain for the suffix, so that no
    /// piece is lost or duplicated and the removed one is gone entirely.
    /// Items standing on the removed piece's cell are deleted; the others
    /// are re-homed to whichever half owns their ground and re-settled onto
    /// the rebuilt geometry.
    ///
    /// Fails with `PieceNotFound`, changing nothing, exactly when no live
    /// chain holds the entity.  Fails with `ItemOffSegments` when a
    /// surviving item's position lies on no rebuilt segment; the piece is
    /// still removed and the piece-list outcome above still holds, but the
    /// affected half is left without its items and with its geometry still
    /// to be rebuilt.
    pub fn remove_piece(&mut self, entity: u64) -> (r: Result<(), BeltError>)
        requires
            net_inv(*old(self)),
        ensures
            net_inv(*final(self)),
            final(self).grid == old(self).grid,
            (r == Err::<(), BeltError>(BeltError::PieceNotFound)) <==> chain_with_entity_spec(
                *old(self),
                entity,
            ).is_none(),
            r == Err::<(), BeltError>(BeltError::PieceNotFound) ==> *final(self) == *old(self),
            r != Err::<(), BeltError>(BeltError::PieceNotFound) ==> removal_outcome(
                *old(self),
                *final(self),
                entity,
            ),
            r is Ok ==> removal_items_ok(*old(self), *final(self), entity),
            chain_with_entity_spec(*old(self), entity).is_some() && chain(
                *old(self),
                chain_with_entity_spec(*old(self), entity).unwrap(),
            ).items@.len() == 0 ==> r is Ok,
    {
        let found: Option<usize> = self.chain_with_entity(entity);
        proof {
            lemma_chain_with_entity_props(*self, entity, 0);
        }
        let c: usize = match found {
            None => {
                return Err(BeltError::PieceNotFound);
            },
            Some(c) => c,
        };
        let (pieces, items, speed): (Vec<BeltPiece>, Vec<BeltItem>, i64) = {
            let ob: &ConveyorBelt = self.get_chain(c).unwrap();
            (copy_pieces(&ob.belt_pieces), copy_items(&ob.items), ob.belt_speed)
        };
        let m: usize = pieces.len();
        let mut k: usize = 0;
        let mut stop: bool = false;
        while k < m && !stop
            invariant
                m == pieces@.len(),
                0 <= k <= m,
                forall|i: int| 0 <= i < k ==> (#[trigger] pieces@[i]).entity != entity,
                stop ==> k < m && pieces@[k as int].entity == entity,
            decreases m - k + (if stop {
                0int
            } else {
                1int
            }),
        {
            if pieces[k].entity == entity {
                stop = true;
            } else {
                k += 1;
            }
        }
        proof {
            assert(chain_has_entity(chain(*self, c as int), entity));
            if !stop {
                let i = choose|i: int|
                    0 <= i < chain(*self, c as int).belt_pieces@.len() && (#[trigger] chain(
                        *self,
                        c as int,
                    ).belt_pieces@[i]).entity == entity;
                assert(pieces@[i].entity == entity);
                assert(false);
            }
            lemma_entity_index_from_props(pieces@, entity, 0);
            assert(k as int == entity_index_at(pieces@, entity).unwrap());
        }
        let removed_cell: GridPosition = pieces[k].grid_position;
        proof {
            assert(items_placeable(items@)) by {
                assert(belt_inv(chain(*self, c as int)));
            };
        }
        let surviving: Vec<BeltItem> = filter_items_not_in_cell(&self.grid, &items, removed_cell);
        if m == 1 {
            self.chains.set(c, None);
            proof {
                lemma_inv_after_set(*old(self), *self, c as int);
            }
            return Ok(());
        }
        if k == 0 || k == m - 1 {
            let mut np: Vec<BeltPiece> = pieces;
            if k == 0 {
                np.remove(0);
                proof {
                    assert(np@ =~= chain(*old(self), c as int).belt_pieces@.subrange(
                        1,
                        chain(*old(self), c as int).belt_pieces@.len() as int,
                    ));
                }
            } else {
                np.truncate(m - 1);
                proof {
                    assert(np@ =~= chain(*old(self), c as int).belt_pieces@.subrange(
                        0,
                        k as int,
                    ));
                }
            }
            proof {
                lemma_subrange_connected(
                    chain(*old(self), c as int).belt_pieces@,
                    if k == 0 {
                        1int
                    } else {
                        0int
                    },
                    if k == 0 {
                        m as int
                    } else {
                        k as int
                    },
                );
                assert(pieces_wf(np@));
            }
            let bare = ConveyorBelt {
                belt_pieces: np,
                items: Vec::new(),
                segments: Vec::new(),
                belt_speed: speed,
                connected_conveyor_belt: None,
            };
            proof {
                assert(belt_inv(bare));
            }
            self.chains.set(c, Some(bare));
            proof {
                lemma_inv_after_set(*old(self), *self, c as int);
            }
            let rr = self.rebuild_with_items(c, &surviving);
            proof {
                if let Ok(()) = rr {
                    lemma_keys_outside_cell(
                        chain(*self, c as int).items@,
                        surviving@,
                        old(self).grid.grid_size,
                        removed_cell,
                    );
                }
            }
            match rr {
                Ok(()) => Ok(()),
                Err(e) => Err(e),
            }
        } else {
            let mut before: Vec<BeltPiece> = pieces;
            let mut tail: Vec<BeltPiece> = before.split_off(k);
            tail.remove(0);
            proof {
                let pcs = chain(*old(self), c as int).belt_pieces@;
                assert(before@ =~= pcs.subrange(0, k as int));
                assert(tail@ =~= pcs.subrange(k as int + 1, pcs.len() as int));
                lemma_subrange_connected(pcs, 0, k as int);
                lemma_subrange_connected(pcs, k as int + 1, pcs.len() as int);
                assert(pieces_wf(before@) && pieces_wf(tail@));
            }
            let pr: (Vec<BeltItem>, Vec<BeltItem>) = partition_items_by_cells(
                &self.grid,
                &surviving,
                &before,
                Ghost(self.grid.grid_size),
                Ghost(removed_cell),
            );
            let items_c: Vec<BeltItem> = pr.0;
            let items_d: Vec<BeltItem> = pr.1;
            let d: usize = self.chains.len();
            let bare_c = ConveyorBelt {
                belt_pieces: before,
                items: Vec::new(),
                segments: Vec::new(),
                belt_speed: speed,
                connected_conveyor_belt: None,
            };
            let bare_d = ConveyorBelt {
                belt_pieces: tail,
                items: Vec::new(),
                segments: Vec::new(),
                belt_speed: speed,
                connected_conveyor_belt: None,
            };
            proof {
                assert(belt_inv(bare_c) && belt_inv(bare_d));
            }
            self.chains.set(c, Some(bare_c));
            self.chains.push(Some(bare_d));
            proof {
                assert forall|j: int| live(*self, j) implies chain_ok(
                    *self,
                    #[trigger] self.chains@[j].unwrap(),
                ) by {
                    if j != c as int && j != d as int {
                        assert(self.chains@[j] == old(self).chains@[j]);
                        assert(chain_ok(*old(self), old(self).chains@[j].unwrap()));
                    }
                }
            }
            let ghost mid = *self;
            let rr1 = self.rebuild_with_items(c, &items_c);
            match rr1 {
                Ok(()) => {
                    proof {
                        lemma_keys_outside_cell(
                            chain(*self, c as int).items@,
                            items_c@,
                            old(self).grid.grid_size,
                            removed_cell,
                        );
                    }
                },
                Err(e) => {
                    return Err(e);
                },
            }
            let rr2 = self.rebuild_with_items(d, &items_d);
            match rr2 {
                Ok(()) => {
                    proof {
                        lemma_keys_outside_cell(
                            chain(*self, d as int).items@,
                            items_d@,
                            old(self).grid.grid_size,
                            removed_cell,
                        );
                    }
                    Ok(())
                },
                Err(e) => Err(e),
            }
        }
    }

    /// Attempts the cross-chain transfer a hand-off requested: when the
    /// destination chain has room at the item's position, the item leaves
    /// the source chain and is inserted into the destination, which settles
    /// it onto its own geometry.  A self-referential bridge re-inserts into
    /// the same chain, checking spacing while ignoring the item itself.
    /// Without room (or with a dead slot), nothing changes and the item is
    /// simply retried on a later tick.  Returns whether the item moved.
    pub fn handle_item_reached_other_belt(
        &mut self,
        source: usize,
        belt_item: &BeltItem,
        next_conveyor: usize,
    ) -> (r: bool)
        requires
            net_inv(*old(self)),
            source < old(self).chains@.len(),
            next_conveyor < old(self).chains@.len(),
            point_in_world_range(belt_item.position),
            0 < belt_item.item_width <= MAX_ITEM_WIDTH,
        ensures
            net_inv(*final(self)),
            final(self).grid == old(self).grid,
            final(self).chains@.len() == old(self).chains@.len(),
            forall|j: int|
                0 <= j < final(self).chains@.len() && j != source as int && j
                    != next_conveyor as int ==> final(self).chains@[j] == old(self).chains@[j],
            r == transfer_allowed(*old(self), source as int, *belt_item, next_conveyor as int),
            !r ==> final(self).chains@ == old(self).chains@,
            r ==> transfer_done(*old(self), *final(self), source as int, *belt_item, next_conveyor as int),
    {
        if source == next_conveyor {
            let mut taken: Option<ConveyorBelt> = None;
            self.chains.set_and_swap(source, &mut taken);
            let mut b: ConveyorBelt = match taken {
                Some(b) => b,
                None => {
                    proof {
                        assert(!live(*old(self), source as int));
                        assert(self.chains@ =~= old(self).chains@);
                    }
                    return false;
                },
            };
            let ghost b0 = b;
            proof {
                assert(chain_ok(*old(self), b));
            }
            if b.has_space_at_position(
                belt_item.position,
                belt_item.item_width,
                Some(belt_item.item_entity),
            ) {
                b.remove_item(belt_item);
                let res = b.insert_item(belt_item);
                proof {
                    if let Err(_) = res {
                        assert(segment_index_spec(b0, belt_item.position).is_some());
                        assert(false);
                    }
                }
                self.chains.set(source, Some(b));
                proof {
                    lemma_inv_after_set(*old(self), *self, source as int);
                }
                true
            } else {
                self.chains.set(source, Some(b));
                proof {
                    assert(self.chains@ =~= old(self).chains@);
                }
                false
            }
        } else {
            let mut taken_s: Option<ConveyorBelt> = None;
            self.chains.set_and_swap(source, &mut taken_s);
            let mut sb: ConveyorBelt = match taken_s {
                Some(b) => b,
                None => {
                    proof {
                        assert(self.chains@ =~= old(self).chains@);
                    }
                    return false;
                },
            };
            let mut taken_n: Option<ConveyorBelt> = None;
            self.chains.set_and_swap(next_conveyor, &mut taken_n);
            let mut nb: ConveyorBelt = match taken_n {
                Some(b) => b,
                None => {
                    self.chains.set(source, Some(sb));
                    proof {
                        assert(self.chains@ =~= old(self).chains@);
                    }
                    return false;
                },
            };
            let ghost nb0 = nb;
            proof {
                assert(chain_ok(*old(self), sb));
                assert(chain_ok(*old(self), nb));
            }
            if nb.has_space_at_position(belt_item.position, belt_item.item_width, None) {
                sb.remove_item(belt_item);
                let res = nb.insert_item(belt_item);
                proof {
                    if let Err(_) = res {
                        assert(segment_index_spec(nb0, belt_item.position).is_some());
                        assert(false);
                    }
                }
                self.chains.set(source, Some(sb));
                self.chains.set(next_conveyor, Some(nb));
                proof {
                    lemma_inv_after_set2(
                        *old(self),
                        *self,
                        source as int,
                        next_conveyor as int,
                    );
                }
                true
            } else {
                self.chains.set(source, Some(sb));
                self.chains.set(next_conveyor, Some(nb));
                proof {
                    assert(self.chains@ =~= old(self).chains@);
                }
                false
            }
        }
    }

    /// One simulation tick of the whole network: every live chain advances
    /// its items under the no-passing rules, and the hand-offs the advances
    /// requested are then attempted, in chain order, as plain queued
    /// transfers.
    /// One simulation tick of the whole network: every live chain advances
    /// its items under the no-passing rules, and the hand-offs the advances
    /// requested are then attempted, in chain order, as plain queued
    /// transfers.  The contract pins both phases: some intermediate state is
    /// exactly the per-chain advance of the starting state, and the final
    /// state follows from it by attempting exactly the queued transfers.
    pub fn conveyor_system(&mut self, dt_micros: i64)
        requires
            net_inv(*old(self)),
            0 <= dt_micros <= crate::units::MAX_TICK_MICROS,
        ensures
            net_inv(*final(self)),
            final(self).grid == old(self).grid,
            final(self).chains@.len() == old(self).chains@.len(),
            forall|c: int| live(*final(self), c) == live(*old(self), c),
            forall|c: int|
                live(*old(self), c) ==> chain(*final(self), c).belt_pieces@ == chain(
                    *old(self),
                    c,
                ).belt_pieces@,
            exists|mid: ConveyorNetwork|
                #[trigger] advanced_state(*old(self), mid, dt_micros as int) && transfers_applied(
                    mid,
                    *final(self),
                    requests_upto(
                        *old(self),
                        dt_micros as int,
                        old(self).chains@.len() as int,
                    ),
                ),
    {
        let n: usize = self.chains.len();
        let mut requests: Vec<(usize, BeltItem, usize)> = Vec::new();
        let mut c: usize = 0;
        proof {
            assert(requests@ =~= requests_upto(*old(self), dt_micros as int, 0));
        }
        while c < n
            invariant
                0 <= c <= n,
                net_inv(*self),
                self.grid == old(self).grid,
                n == self.chains@.len(),
                n == old(self).chains@.len(),
                net_inv(*old(self)),
                0 <= dt_micros <= crate::units::MAX_TICK_MICROS,
                forall|j: int|
                    c <= j < n ==> (#[trigger] self.chains@[j]) == old(self).chains@[j],
                forall|j: int|
                    0 <= j < c && !live(*old(self), j) ==> (#[trigger] self.chains@[j]) == old(
                        self,
                    ).chains@[j],
                forall|j: int|
                    #![trigger self.chains@[j]]
                    0 <= j < c && live(*old(self), j) ==> {
                        &&& live(*self, j)
                        &&& chain(*self, j).belt_pieces@ == chain(*old(self), j).belt_pieces@
                        &&& chain(*self, j).segments@ == chain(*old(self), j).segments@
                        &&& chain(*self, j).belt_speed == chain(*old(self), j).belt_speed
                        &&& chain(*self, j).connected_conveyor_belt == chain(
                            *old(self),
                            j,
                        ).connected_conveyor_belt
                        &&& chain(*self, j).items@ == chain_advance(
                            chain(*old(self), j),
                            dt_micros as int,
                        ).0
                    },
                requests@ == requests_upto(*old(self), dt_micros as int, c as int),
                forall|i: int|
                    0 <= i < requests@.len() ==> ((#[trigger] requests@[i]).0 < n
                        && requests@[i].2 < n && point_in_world_range(requests@[i].1.position) && 0
                        < requests@[i].1.item_width <= MAX_ITEM_WIDTH),
            decreases n - c,
        {
            let ghost pre = *self;
            let mut taken: Option<ConveyorBelt> = None;
            self.chains.set_and_swap(c, &mut taken);
            match taken {
                Some(mut b) => {
                    proof {
                        assert(pre.chains@[c as int] == old(self).chains@[c as int]);
                        assert(chain_ok(pre, pre.chains@[c as int].unwrap()));
                        assert(b == chain(*old(self), c as int));
                    }
                    let handoffs: Vec<BeltItem> = b.advance_items(dt_micros);
                    let dest: Option<usize> = b.connected_conveyor_belt;
                    self.chains.set(c, Some(b));
                    proof {
                        lemma_inv_after_set(pre, *self, c as int);
                        assert(handoffs@ == chain_advance(
                            chain(*old(self), c as int),
                            dt_micros as int,
                        ).1);
                    }
                    let ghost base = requests@;
                    match dest {
                        Some(d) => {
                            let hn: usize = handoffs.len();
                            let mut h: usize = 0;
                            while h < hn
                                invariant
                                    0 <= h <= hn,
                                    hn == handoffs@.len(),
                                    c < n,
                                    d < n,
                                    requests@.len() == base.len() + h,
                                    forall|i: int|
                                        0 <= i < base.len() ==> (#[trigger] requests@[i])
                                            == base[i],
                                    forall|i: int|
                                        base.len() <= i < requests@.len()
                                            ==> (#[trigger] requests@[i]) == (
                                        c,
                                        handoffs@[i - base.len()],
                                        d,
                                    ),
                                    forall|i: int|
                                        0 <= i < handoffs@.len() ==> point_in_world_range(
                                            (#[trigger] handoffs@[i]).position,
                                        ) && 0 < handoffs@[i].item_width <= MAX_ITEM_WIDTH,
                                decreases hn - h,
                            {
                                requests.push((c, handoffs[h], d));
                                h += 1;
                            }
                            proof {
                                let spec_reqs = chain_requests(
                                    *old(self),
                                    dt_micros as int,
                                    c as int,
                                );
                                let moved = chain_advance(
                                    chain(*old(self), c as int),
                                    dt_micros as int,
                                ).1;
                                assert(spec_reqs == moved.map_values(
                                    |it: BeltItem| (c as int as usize, it, d),
                                ));
                                assert forall|i: int| 0 <= i < spec_reqs.len() implies #[trigger] spec_reqs[i]
                                    == (c, handoffs@[i], d) by {
                                    assert(spec_reqs[i] == (c as int as usize, moved[i], d));
                                }
                                assert(requests@ =~= base + spec_reqs);
                            }
                        },
                        None => {
                            proof {
                                assert(requests@ =~= base + chain_requests(
                                    *old(self),
                                    dt_micros as int,
                                    c as int,
                                ));
                            }
                        },
                    }
                    proof {
                        assert forall|j: int|
                            #![trigger self.chains@[j]]
                            0 <= j < c as int + 1 && live(*old(self), j) implies (live(*self, j)
                            && chain(*self, j).belt_pieces@ == chain(*old(self), j).belt_pieces@
                            && chain(*self, j).segments@ == chain(*old(self), j).segments@
                            && chain(*self, j).belt_speed == chain(*old(self), j).belt_speed
                            && chain(*self, j).connected_conveyor_belt == chain(
                            *old(self),
                            j,
                        ).connected_conveyor_belt && chain(*self, j).items@ == chain_advance(
                            chain(*old(self), j),
                            dt_micros as int,
                        ).0) by {
                            if j < c as int {
                                assert(self.chains@[j] == pre.chains@[j]);
                                assert(pre.chains@[j].is_some());
                            } else {
                                assert(self.chains@[j].is_some());
                            }
                        }
                    }
                },
                None => {
                    proof {
                        assert(self.chains@ =~= pre.chains@);
                        assert forall|j: int| live(*self, j) implies chain_ok(
                            *self,
                            #[trigger] self.chains@[j].unwrap(),
                        ) by {
                            assert(chain_ok(pre, pre.chains@[j].unwrap()));
                        }
                        assert(requests@ =~= requests@ + chain_requests(
                            *old(self),
                            dt_micros as int,
                            c as int,
                        ));
                        assert forall|j: int|
                            #![trigger self.chains@[j]]
                            0 <= j < c as int + 1 && live(*old(self), j) implies (live(*self, j)
                            && chain(*self, j).belt_pieces@ == chain(*old(self), j).belt_pieces@
                            && chain(*self, j).segments@ == chain(*old(self), j).segments@
                            && chain(*self, j).belt_speed == chain(*old(self), j).belt_speed
                            && chain(*self, j).connected_conveyor_belt == chain(
                            *old(self),
                            j,
                        ).connected_conveyor_belt && chain(*self, j).items@ == chain_advance(
                            chain(*old(self), j),
                            dt_micros as int,
                        ).0) by {
                            assert(self.chains@[j] == pre.chains@[j]);
                            assert(pre.chains@[j].is_some());
                        }
                    }
                },
            }
            c += 1;
        }
        let ghost mid = *self;
        proof {
            assert(advanced_state(*old(self), mid, dt_micros as int));
            assert(requests@.take(0) =~= Seq::<(usize, BeltItem, usize)>::empty());
            assert(transfers_applied(mid, *self, requests@.take(0)));
            assert forall|j: int| live(*self, j) == live(*old(self), j) by {
                if 0 <= j < n {
                    if !live(*old(self), j) {
                        assert(self.chains@[j] == old(self).chains@[j]);
                    } else {
                        assert(self.chains@[j].is_some());
                    }
                }
            }
        }
        let rn: usize = requests.len();
        let mut t: usize = 0;
        while t < rn
            invariant
                0 <= t <= rn,
                rn == requests@.len(),
                net_inv(*self),
                self.grid == old(self).grid,
                n == self.chains@.len(),
                n == old(self).chains@.len(),
                mid.chains@.len() == n,
                transfers_applied(mid, *self, requests@.take(t as int)),
                forall|j: int| live(*self, j) == live(*old(self), j),
                forall|j: int|
                    live(*old(self), j) ==> chain(*self, j).belt_pieces@ == chain(
                        *old(self),
                        j,
                    ).belt_pieces@,
                forall|i: int|
                    0 <= i < requests@.len() ==> ((#[trigger] requests@[i]).0 < n
                        && requests@[i].2 < n && point_in_world_range(requests@[i].1.position) && 0
                        < requests@[i].1.item_width <= MAX_ITEM_WIDTH),
            decreases rn - t,
        {
            let ghost prev = *self;
            let rq: (usize, BeltItem, usize) = requests[t];
            self.handle_item_reached_other_belt(rq.0, &rq.1, rq.2);
            proof {
                assert(transfer_step(prev, *self, requests@[t as int]));
                lemma_transfers_applied_snoc(
                    mid,
                    prev,
                    *self,
                    requests@.take(t as int),
                    requests@[t as int],
                );
                assert(requests@.take(t as int + 1) =~= requests@.take(t as int).push(
                    requests@[t as int],
                ));
            }
            t += 1;
        }
        proof {
            assert(requests@.take(rn as int) =~= requests@);
        }
    }

    /// An empty network over a grid of the given cell size.
    pub fn new(grid_size: i64) -> (r: ConveyorNetwork)
        requires
            cell_size_ok(grid_size),
        ensures
            r.grid.grid_size == grid_size,
            r.chains@.len() == 0,
            net_inv(r),
    {
        ConveyorNetwork { grid: WorldGrid::new(grid_size), chains: Vec::new() }
    }

    /// How many slots the arena holds, live or empty.
    pub fn slot_count(&self) -> (r: usize)
        ensures
            r == self.chains@.len(),
    {
        self.chains.len()
    }

    /// A copy of the chain in slot `c`, if that slot is live.
    pub fn get_chain(&self, c: usize) -> (r: Option<&ConveyorBelt>)
        requires
            c < self.chains@.len(),
        ensures
            r.is_some() == live(*self, c as int),
            r.is_some() ==> *r.unwrap() == chain(*self, c as int),
    {
        match &self.chains[c] {
            Some(b) => Some(b),
            None => None,
        }
    }

    /// The slot of the first live chain with a piece on `pos`.
    pub fn chain_at_position(&self, pos: &GridPosition) -> (r: Option<usize>)
        ensures
            r.is_some() == chain_at_position_spec(*self, *pos).is_some(),
            r.is_some() ==> r.unwrap() as int == chain_at_position_spec(*self, *pos).unwrap(),
    {
        let n: usize = self.chains.len();
        let mut c: usize = 0;
        while c < n
            invariant
                n == self.chains@.len(),
                0 <= c <= n,
                chain_at_pos_from(*self, *pos, 0) == chain_at_pos_from(*self, *pos, c as int),
            decreases n - c,
        {
            match &self.chains[c] {
                Some(b) => {
                    match b.get_belt_piece_at_position(pos) {
                        Some(_) => {
                            proof {
                                crate::belt::lemma_piece_index_from_props(b.belt_pieces@, *pos, 0);
                            }
                            return Some(c);
                        },
                        None => {
                            proof {
                                assert(!chain_has_piece_at(self.chains@[c as int].unwrap(), *pos));
                            }
                        },
                    }
                },
                None => {
                },
            }
            c += 1;
        }
        None
    }

    /// The slot of the first live chain holding a piece for entity `e`.
    pub fn chain_with_entity(&self, e: u64) -> (r: Option<usize>)
        ensures
            r.is_some() == chain_with_entity_spec(*self, e).is_some(),
            r.is_some() ==> r.unwrap() as int == chain_with_entity_spec(*self, e).unwrap(),
    {
        let n: usize = self.chains.len();
        let mut c: usize = 0;
        while c < n
            invariant
                n == self.chains@.len(),
                0 <= c <= n,
                chain_with_entity_from(*self, e, 0) == chain_with_entity_from(*self, e, c as int),
            decreases n - c,
        {
            match &self.chains[c] {
                Some(b) => {
                    let m: usize = b.belt_pieces.len();
                    let mut k: usize = 0;
                    let mut found: bool = false;
                    while k < m && !found
                        invariant
                            m == b.belt_pieces@.len(),
                            0 <= k <= m,
                            forall|i: int|
                                0 <= i < k ==> (#[trigger] b.belt_pieces@[i]).entity != e,
                            found ==> k < m && b.belt_pieces@[k as int].entity == e,
                        decreases m - k + (if found {
                            0int
                        } else {
                            1int
                        }),
                    {
                        if b.belt_pieces[k].entity == e {
                            found = true;
                        } else {
                            k += 1;
                        }
                    }
                    if found {
                        return Some(c);
                    }
                    proof {
                        assert(!chain_has_entity(self.chains@[c as int].unwrap(), e));
                    }
                },
                None => {
                },
            }
            c += 1;
        }
        None
    }
}

} // verus!
