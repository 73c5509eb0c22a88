//! Derivation of a chain's segments from its pieces.
//!
//! Segments are derived, never patched: whenever a chain's piece list
//! changes, the whole polyline is rebuilt from the pieces and the grid
//! geometry.  A maximal run of consecutive pieces sharing one rotation
//! collapses into one straight segment.  The first segment starts at the
//! head piece's centre and the final segment ends at the tail piece's
//! centre; at a rotation change the closing segment overshoots the turning
//! run's last centre by half a cell, and the next segment starts exactly at
//! the turning piece's centre.

use vstd::prelude::*;

use crate::belt::BeltPiece;
use crate::belt::pieces_wf;
use crate::belt::segments_wf;
use crate::grid::GridRotation;
use crate::grid::WorldGrid;
use crate::grid::cell_size_ok;
use crate::grid::direction_of;
use crate::grid::forward_of;
use crate::grid::lemma_coord_product_bound;
use crate::grid::pos_in_grid_range;
use crate::segment::ConveyorSegment;
use crate::segment::WorldPoint;
use crate::segment::point_in_world_range;
use crate::segment::seg_len;
use crate::segment::seg_wf;
use crate::units::MAX_CELL_SIZE;
use crate::units::MAX_GRID_COORD;
use crate::units::div_nn;

verus! {

/// A head-to-tail connected piece list: every piece stands on the cell its
/// predecessor's facing points at.
pub open spec fn chain_connected(pieces: Seq<BeltPiece>) -> bool {
    forall|k: int|
        #![trigger pieces[k], pieces[k - 1]]
        0 < k < pieces.len() ==> pieces[k].grid_position == forward_of(
            pieces[k - 1].grid_position,
            pieces[k - 1].grid_rotation,
        )
}

/// The world centre of the cell a piece stands on.
pub open spec fn center_of(p: BeltPiece, cell: i64) -> WorldPoint {
    WorldPoint { x: (p.grid_position.x * cell) as i64, z: (p.grid_position.y * cell) as i64 }
}

/// A point carried half a cell along a rotation's facing.
pub open spec fn half_step(p: WorldPoint, r: GridRotation, cell: i64) -> WorldPoint {
    WorldPoint {
        x: (p.x + direction_of(r).0 * (cell as int / 2)) as i64,
        z: (p.z + direction_of(r).1 * (cell as int / 2)) as i64,
    }
}

/// A plain segment between two points with an explicitly chosen direction
/// (so that a zero-length segment still knows its facing).
pub open spec fn seg_between(a: WorldPoint, b: WorldPoint, r: GridRotation) -> ConveyorSegment {
    ConveyorSegment { start: a, end: b, dir: r, is_connector: false }
}

/// The segments the walk from piece `k` onward contributes, with the
/// current segment open since `cur_start`: a rotation change closes the
/// current segment half a cell past the previous piece's centre and opens a
/// new one at the turning piece's centre; the walk's end closes the current
/// segment at the tail piece's centre.
pub open spec fn build_from(
    pieces: Seq<BeltPiece>,
    cell: i64,
    k: int,
    cur_start: WorldPoint,
) -> Seq<ConveyorSegment>
    decreases pieces.len() - k,
{
    if k <= 0 || k >= pieces.len() {
        seq![
            seg_between(
                cur_start,
                center_of(pieces[pieces.len() - 1], cell),
                pieces[pieces.len() - 1].grid_rotation,
            ),
        ]
    } else if pieces[k].grid_rotation == pieces[k - 1].grid_rotation {
        build_from(pieces, cell, k + 1, cur_start)
    } else {
        seq![
            seg_between(
                cur_start,
                half_step(center_of(pieces[k - 1], cell), pieces[k - 1].grid_rotation, cell),
                pieces[k - 1].grid_rotation,
            ),
        ] + build_from(pieces, cell, k + 1, center_of(pieces[k], cell))
    }
}

/// The full segment list a piece list derives to.
pub open spec fn build_segments_spec(pieces: Seq<BeltPiece>, cell: i64) -> Seq<ConveyorSegment> {
    if pieces.len() == 0 {
        Seq::<ConveyorSegment>::empty()
    } else {
        build_from(pieces, cell, 1, center_of(pieces[0], cell))
    }
}

/// Within one run of equal rotations, cell centres advance by exactly one
/// cell along the shared facing.
proof fn lemma_run_collinear(pieces: Seq<BeltPiece>, cell: i64, rs: int, j: int)
    requires
        cell_size_ok(cell),
        pieces_wf(pieces),
        chain_connected(pieces),
        0 <= rs <= j < pieces.len(),
        forall|t: int| rs <= t <= j ==> (#[trigger] pieces[t]).grid_rotation == pieces[rs].grid_rotation,
    ensures
        center_of(pieces[j], cell).x == center_of(pieces[rs], cell).x + direction_of(
            pieces[rs].grid_rotation,
        ).0 * ((j - rs) * cell),
        center_of(pieces[j], cell).z == center_of(pieces[rs], cell).z + direction_of(
            pieces[rs].grid_rotation,
        ).1 * ((j - rs) * cell),
    decreases j - rs,
{
    let r = pieces[rs].grid_rotation;
    let dx = direction_of(r).0;
    let dz = direction_of(r).1;
    lemma_center_in_range(pieces[j], cell);
    lemma_center_in_range(pieces[rs], cell);
    if j == rs {
        assert(dx * ((j - rs) * cell) == 0 && dz * ((j - rs) * cell) == 0) by (nonlinear_arith)
            requires
                j == rs,
        ;
    } else {
        lemma_run_collinear(pieces, cell, rs, j - 1);
        lemma_center_in_range(pieces[j - 1], cell);
        let xp = pieces[j - 1].grid_position.x as int;
        let yp = pieces[j - 1].grid_position.y as int;
        let xrs = pieces[rs].grid_position.x as int;
        let yrs = pieces[rs].grid_position.y as int;
        assert(pieces[j - 1].grid_rotation == r);
        assert(pieces[j].grid_position == forward_of(pieces[j - 1].grid_position, r));
        assert(pos_in_grid_range(pieces[j - 1].grid_position));
        match r {
            GridRotation::N => {
                assert(pieces[j].grid_position.x == xp && pieces[j].grid_position.y == yp + 1);
            },
            GridRotation::S => {
                assert(pieces[j].grid_position.x == xp && pieces[j].grid_position.y == yp - 1);
            },
            GridRotation::W => {
                assert(pieces[j].grid_position.x == xp + 1 && pieces[j].grid_position.y == yp);
            },
            GridRotation::E => {
                assert(pieces[j].grid_position.x == xp - 1 && pieces[j].grid_position.y == yp);
            },
        }
        assert(pieces[j].grid_position.x == xp + dx && pieces[j].grid_position.y == yp + dz);
        assert((xp + dx) * cell == xp * cell + dx * cell) by (nonlinear_arith);
        assert((yp + dz) * cell == yp * cell + dz * cell) by (nonlinear_arith);
        assert(xp * cell == xrs * cell + dx * ((j - 1 - rs) * cell));
        assert(yp * cell == yrs * cell + dz * ((j - 1 - rs) * cell));
        assert(dx * ((j - 1 - rs) * cell) + dx * cell == dx * ((j - rs) * cell))
            by (nonlinear_arith);
        assert(dz * ((j - 1 - rs) * cell) + dz * cell == dz * ((j - rs) * cell))
            by (nonlinear_arith);
        assert(center_of(pieces[j], cell).x == (xp + dx) * cell);
        assert(center_of(pieces[j], cell).z == (yp + dz) * cell);
    }
}

/// A piece's cell centre is a representable world point.
pub proof fn lemma_center_in_range(p: BeltPiece, cell: i64)
    requires
        cell_size_ok(cell),
        pos_in_grid_range(p.grid_position),
    ensures
        point_in_world_range(center_of(p, cell)),
        center_of(p, cell).x == p.grid_position.x * cell,
        center_of(p, cell).z == p.grid_position.y * cell,
        -MAX_GRID_COORD * MAX_CELL_SIZE <= center_of(p, cell).x <= MAX_GRID_COORD * MAX_CELL_SIZE,
        -MAX_GRID_COORD * MAX_CELL_SIZE <= center_of(p, cell).z <= MAX_GRID_COORD * MAX_CELL_SIZE,
{
    lemma_coord_product_bound(p.grid_position.x as int, cell as int);
    lemma_coord_product_bound(p.grid_position.y as int, cell as int);
}

/// A segment whose end is its start carried a non-negative distance along
/// its direction is well-formed, with that distance as its length.
pub proof fn lemma_seg_along_dir(a: WorldPoint, b: WorldPoint, r: GridRotation, d: int)
    requires
        point_in_world_range(a),
        point_in_world_range(b),
        0 <= d,
        b.x == a.x + direction_of(r).0 * d,
        b.z == a.z + direction_of(r).1 * d,
    ensures
        seg_wf(seg_between(a, b, r)),
        seg_len(seg_between(a, b, r)) == d,
{
    match r {
        GridRotation::N => {
        },
        GridRotation::S => {
        },
        GridRotation::W => {
        },
        GridRotation::E => {
        },
    }
}

/// Pushing a segment onto the finished prefix and prepending it to the
/// remaining walk describe the same list.
proof fn lemma_push_assoc(
    acc: Seq<ConveyorSegment>,
    seg: ConveyorSegment,
    rest: Seq<ConveyorSegment>,
)
    ensures
        acc.push(seg) + rest == acc + (seq![seg] + rest),
{
    assert(acc.push(seg) + rest =~= acc + (seq![seg] + rest));
}

/// At a rotation change the closing segment is well-formed and the walk's
/// remaining contribution splits off exactly that segment.
#[verifier::rlimit(100)]
#[verifier::spinoff_prover]
proof fn lemma_close_step(
    pieces: Seq<BeltPiece>,
    cell: i64,
    rs: int,
    k: int,
    cur_start: WorldPoint,
    seg: ConveyorSegment,
)
    requires
        cell_size_ok(cell),
        pieces_wf(pieces),
        chain_connected(pieces),
        1 <= k < pieces.len(),
        0 <= rs <= k - 1,
        cur_start == center_of(pieces[rs], cell),
        forall|t: int|
            rs <= t < k ==> (#[trigger] pieces[t]).grid_rotation == pieces[k - 1].grid_rotation,
        pieces[k].grid_rotation != pieces[k - 1].grid_rotation,
        seg == seg_between(
            cur_start,
            half_step(center_of(pieces[k - 1], cell), pieces[k - 1].grid_rotation, cell),
            pieces[k - 1].grid_rotation,
        ),
    ensures
        seg_wf(seg),
        !seg.is_connector,
        build_from(pieces, cell, k, cur_start) == seq![seg] + build_from(
            pieces,
            cell,
            k + 1,
            center_of(pieces[k], cell),
        ),
        point_in_world_range(center_of(pieces[k], cell)),
{
    let r = pieces[k - 1].grid_rotation;
    let dx = direction_of(r).0;
    let dz = direction_of(r).1;
    lemma_center_in_range(pieces[k - 1], cell);
    lemma_center_in_range(pieces[k], cell);
    lemma_center_in_range(pieces[rs], cell);
    lemma_run_collinear(pieces, cell, rs, k - 1);
    let d0 = (k - 1 - rs) * cell;
    let d = d0 + cell as int / 2;
    assert(0 <= d0) by (nonlinear_arith)
        requires
            d0 == (k - 1 - rs) * cell,
            0 <= k - 1 - rs,
            0 < cell,
    ;
    assert(dx * d0 + dx * (cell as int / 2) == dx * d) by (nonlinear_arith)
        requires
            d == d0 + cell as int / 2,
    ;
    assert(dz * d0 + dz * (cell as int / 2) == dz * d) by (nonlinear_arith)
        requires
            d == d0 + cell as int / 2,
    ;
    assert(-(cell as int) <= dx * (cell as int / 2) <= cell && -(cell as int) <= dz * (cell as int
        / 2) <= cell) by (nonlinear_arith)
        requires
            -1 <= dx <= 1,
            -1 <= dz <= 1,
            0 < cell,
    ;
    assert(seg.end.x == center_of(pieces[k - 1], cell).x + dx * (cell as int / 2));
    assert(seg.end.z == center_of(pieces[k - 1], cell).z + dz * (cell as int / 2));
    assert(point_in_world_range(seg.end));
    assert(seg.end.x == cur_start.x + dx * d && seg.end.z == cur_start.z + dz * d);
    lemma_seg_along_dir(cur_start, seg.end, r, d);
}

/// Rebuilds the straight segments a connected piece list derives to.
///
/// The result is exactly `build_segments_spec`: one well-formed,
/// non-connector segment per run of equal rotations, the first starting at
/// the head piece's centre and the last ending at the tail piece's centre.
#[verifier::rlimit(100)]
pub fn build_segments(pieces: &Vec<BeltPiece>, grid: &WorldGrid) -> (r: Vec<ConveyorSegment>)
    requires
        cell_size_ok(grid.grid_size),
        pieces@.len() >= 1,
        pieces_wf(pieces@),
        chain_connected(pieces@),
    ensures
        r@ == build_segments_spec(pieces@, grid.grid_size),
        segments_wf(r@),
        r@.len() >= 1,
        forall|i: int| 0 <= i < r@.len() ==> !(#[trigger] r@[i]).is_connector,
        r@.last().end == center_of(pieces@.last(), grid.grid_size),
        r@.last().dir == pieces@.last().grid_rotation,
        r@[0].start == center_of(pieces@[0], grid.grid_size),
{
    let cell: i64 = grid.grid_size;
    let n: usize = pieces.len();
    let mut acc: Vec<ConveyorSegment> = Vec::new();
    let first: BeltPiece = pieces[0];
    let w0: (i64, i64) = grid.grid_to_world(&first.grid_position);
    let mut cur_start: WorldPoint = WorldPoint { x: w0.0, z: w0.1 };
    let mut cur_rot: GridRotation = first.grid_rotation;
    let ghost mut rs: int = 0;
    proof {
        lemma_center_in_range(first, cell);
        assert(cur_start == center_of(pieces@[0], cell));
    }
    let mut k: usize = 1;
    while k < n
        invariant
            1 <= k <= n,
            n == pieces@.len(),
            cell == grid.grid_size,
            cell_size_ok(cell),
            pieces_wf(pieces@),
            chain_connected(pieces@),
            cur_rot == pieces@[k - 1].grid_rotation,
            0 <= rs <= k - 1,
            cur_start == center_of(pieces@[rs], cell),
            forall|t: int| rs <= t < k ==> (#[trigger] pieces@[t]).grid_rotation == cur_rot,
            segments_wf(acc@),
            forall|i: int| 0 <= i < acc@.len() ==> !(#[trigger] acc@[i]).is_connector,
            acc@.len() >= 1 ==> acc@[0].start == center_of(pieces@[0], cell),
            acc@.len() == 0 ==> cur_start == center_of(pieces@[0], cell),
            acc@ + build_from(pieces@, cell, k as int, cur_start) == build_segments_spec(
                pieces@,
                cell,
            ),
        decreases n - k,
    {
        let p: BeltPiece = pieces[k];
        let prev: BeltPiece = pieces[k - 1];
        if p.grid_rotation == cur_rot {
            proof {
                assert(build_from(pieces@, cell, k as int, cur_start) == build_from(
                    pieces@,
                    cell,
                    k as int + 1,
                    cur_start,
                ));
            }
        } else {
            let pw: (i64, i64) = grid.grid_to_world(&prev.grid_position);
            let half: i64 = div_nn(cell, 2);
            let dxs: (i64, i64) = cur_rot.get_direction();
            proof {
                assert(-half <= dxs.0 * half <= half && -half <= dxs.1 * half <= half)
                    by (nonlinear_arith)
                    requires
                        -1 <= dxs.0 <= 1,
                        -1 <= dxs.1 <= 1,
                        0 <= half,
                ;
                lemma_center_in_range(prev, cell);
            }
            let end = WorldPoint { x: pw.0 + dxs.0 * half, z: pw.1 + dxs.1 * half };
            let seg = ConveyorSegment { start: cur_start, end, dir: cur_rot, is_connector: false };
            proof {
                assert(end == half_step(center_of(prev, cell), prev.grid_rotation, cell));
                lemma_close_step(pieces@, cell, rs, k as int, cur_start, seg);
                lemma_push_assoc(
                    acc@,
                    seg,
                    build_from(pieces@, cell, k as int + 1, center_of(pieces@[k as int], cell)),
                );
            }
            acc.push(seg);
            let npw: (i64, i64) = grid.grid_to_world(&p.grid_position);
            cur_start = WorldPoint { x: npw.0, z: npw.1 };
            cur_rot = p.grid_rotation;
            proof {
                rs = k as int;
                lemma_center_in_range(p, cell);
            }
        }
        k += 1;
    }
    let last: BeltPiece = pieces[n - 1];
    let lw: (i64, i64) = grid.grid_to_world(&last.grid_position);
    let end = WorldPoint { x: lw.0, z: lw.1 };
    let seg = ConveyorSegment { start: cur_start, end, dir: cur_rot, is_connector: false };
    proof {
        lemma_center_in_range(last, cell);
        lemma_center_in_range(pieces@[rs], cell);
        lemma_run_collinear(pieces@, cell, rs, n as int - 1);
        let d = (n as int - 1 - rs) * cell;
        assert(0 <= d) by (nonlinear_arith)
            requires
                d == (n as int - 1 - rs) * cell,
                0 <= n as int - 1 - rs,
                0 < cell,
        ;
        lemma_seg_along_dir(cur_start, end, cur_rot, d);
        assert(seg == seg_between(cur_start, center_of(pieces@.last(), cell), pieces@.last().grid_rotation));
        assert(build_from(pieces@, cell, n as int, cur_start) == seq![seg]);
        assert(acc@.push(seg) =~= acc@ + seq![seg]);
    }
    acc.push(seg);
    acc
}

} // verus!
