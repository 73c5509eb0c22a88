//! Straight, axis-aligned conveyor segments in fixed-point world
//! coordinates.
//!
//! A segment is a derived, transient piece of geometry: the segment builder
//! recomputes a chain's segments from its pieces whenever the chain's
//! topology changes.  Items travel along a segment by a progress value
//! running from `0` (start) to `SCALE` (end).  Connector segments are
//! synthetic bridges to a neighbouring chain's first piece and never carry
//! items themselves.

use vstd::prelude::*;

use crate::grid::GridRotation;
use crate::grid::direction_of;
use crate::units::MAX_WORLD_COORD;
use crate::units::SCALE;
use crate::units::mul_div;

verus! {

/// Half of a segment's occupancy width, in micro-units: a point counts as
/// lying on a segment when it is on the segment's axis span and within this
/// distance of its line.
pub const SEGMENT_HALF_WIDTH: i64 = 5_000;

/// A point on the world's ground plane, `(x, z)` in micro-units.
#[derive(Clone, Copy, PartialEq, Eq, Structural, Debug)]
pub struct WorldPoint {
    pub x: i64,
    pub z: i64,
}

/// A point the engine accepts as world geometry.
pub open spec fn point_in_world_range(p: WorldPoint) -> bool {
    -MAX_WORLD_COORD <= p.x <= MAX_WORLD_COORD && -MAX_WORLD_COORD <= p.z <= MAX_WORLD_COORD
}

/// One straight run of belt geometry.
#[derive(Clone, Copy, PartialEq, Eq, Structural, Debug)]
pub struct ConveyorSegment {
    pub start: WorldPoint,
    pub end: WorldPoint,
    pub dir: GridRotation,
    pub is_connector: bool,
}

/// Length of a segment, in micro-units; segments are axis-aligned, so this
/// is the taxicab distance between the endpoints.
pub open spec fn seg_len(s: ConveyorSegment) -> int {
    abs_int(s.end.x - s.start.x) + abs_int(s.end.z - s.start.z)
}

/// Absolute value of a mathematical integer.
pub open spec fn abs_int(v: int) -> int {
    if v >= 0 {
        v
    } else {
        -v
    }
}

/// A well-formed segment: endpoints in range, and the stored direction
/// actually carries the start to the end over the segment's length.  A
/// zero-length segment is well-formed with any direction.
pub open spec fn seg_wf(s: ConveyorSegment) -> bool {
    &&& point_in_world_range(s.start)
    &&& point_in_world_range(s.end)
    &&& s.end.x == s.start.x + direction_of(s.dir).0 * seg_len(s)
    &&& s.end.z == s.start.z + direction_of(s.dir).1 * seg_len(s)
}

/// The axis direction leading from `a` to `b`, for distinct axis-aligned
/// points.
pub open spec fn axis_direction(a: WorldPoint, b: WorldPoint) -> GridRotation {
    if b.x > a.x {
        GridRotation::W
    } else if b.x < a.x {
        GridRotation::E
    } else if b.z > a.z {
        GridRotation::N
    } else {
        GridRotation::S
    }
}

/// Whether a point lies on a segment: within the segment's axis span and
/// within `SEGMENT_HALF_WIDTH` of its line.  Connectors answer like any
/// other segment; callers skip them where items are concerned.
pub open spec fn on_segment(s: ConveyorSegment, p: WorldPoint) -> bool {
    if s.start.x == s.end.x && s.start.z == s.end.z {
        abs_int(p.x - s.start.x) <= SEGMENT_HALF_WIDTH && abs_int(p.z - s.start.z)
            <= SEGMENT_HALF_WIDTH
    } else if s.start.z == s.end.z {
        &&& min_int(s.start.x as int, s.end.x as int) <= p.x <= max_int(
            s.start.x as int,
            s.end.x as int,
        )
        &&& abs_int(p.z - s.start.z) <= SEGMENT_HALF_WIDTH
    } else {
        &&& min_int(s.start.z as int, s.end.z as int) <= p.z <= max_int(
            s.start.z as int,
            s.end.z as int,
        )
        &&& abs_int(p.x - s.start.x) <= SEGMENT_HALF_WIDTH
    }
}

/// Smaller of two mathematical integers.
pub open spec fn min_int(a: int, b: int) -> int {
    if a <= b {
        a
    } else {
        b
    }
}

/// Larger of two mathematical integers.
pub open spec fn max_int(a: int, b: int) -> int {
    if a >= b {
        a
    } else {
        b
    }
}

/// The progress value of the orthogonal projection of `p` onto `s`, clamped
/// into `[0, SCALE]`; a zero-length segment answers `0`.
pub open spec fn progress_of(s: ConveyorSegment, p: WorldPoint) -> int {
    let len = seg_len(s);
    let d = direction_of(s.dir).0 * (p.x - s.start.x) + direction_of(s.dir).1 * (p.z - s.start.z);
    if len == 0 {
        0int
    } else if d <= 0 {
        0int
    } else if d >= len {
        SCALE as int
    } else {
        d * SCALE / len
    }
}

/// The point a progress value names on a segment: the start carried
/// `seg_len * progress / SCALE` micro-units along the direction.
pub open spec fn point_at_progress(s: ConveyorSegment, progress: int) -> WorldPoint {
    let off = seg_len(s) * progress / (SCALE as int);
    WorldPoint {
        x: (s.start.x + direction_of(s.dir).0 * off) as i64,
        z: (s.start.z + direction_of(s.dir).1 * off) as i64,
    }
}

impl ConveyorSegment {
    /// A non-connector segment between two distinct axis-aligned points,
    /// directed from `start_position` to `end_position`.
    pub fn new(start_position: WorldPoint, end_position: WorldPoint) -> (r: ConveyorSegment)
        requires
            point_in_world_range(start_position),
            point_in_world_range(end_position),
            start_position != end_position,
            start_position.x == end_position.x || start_position.z == end_position.z,
        ensures
            r.start == start_position,
            r.end == end_position,
            r.is_connector == false,
            r.dir == axis_direction(start_position, end_position),
            seg_wf(r),
    {
        let dir: GridRotation = if end_position.x > start_position.x {
            GridRotation::W
        } else if end_position.x < start_position.x {
            GridRotation::E
        } else if end_position.z > start_position.z {
            GridRotation::N
        } else {
            GridRotation::S
        };
        let r = ConveyorSegment {
            start: start_position,
            end: end_position,
            dir,
            is_connector: false,
        };
        proof {
            match dir {
                GridRotation::W => {
                    assert(seg_len(r) == r.end.x - r.start.x);
                    assert(1int * seg_len(r) == seg_len(r)) by (nonlinear_arith);
                    assert(0int * seg_len(r) == 0) by (nonlinear_arith);
                },
                GridRotation::E => {
                    assert(seg_len(r) == r.start.x - r.end.x);
                    assert((-1int) * seg_len(r) == -seg_len(r)) by (nonlinear_arith);
                    assert(0int * seg_len(r) == 0) by (nonlinear_arith);
                },
                GridRotation::N => {
                    assert(seg_len(r) == r.end.z - r.start.z);
                    assert(1int * seg_len(r) == seg_len(r)) by (nonlinear_arith);
                    assert(0int * seg_len(r) == 0) by (nonlinear_arith);
                },
                GridRotation::S => {
                    assert(seg_len(r) == r.start.z - r.end.z);
                    assert((-1int) * seg_len(r) == -seg_len(r)) by (nonlinear_arith);
                    assert(0int * seg_len(r) == 0) by (nonlinear_arith);
                },
            }
        }
        r
    }

    /// The segment's start point.
    pub fn start_position(&self) -> (r: WorldPoint)
        ensures
            r == self.start,
    {
        self.start
    }

    /// The segment's end point.
    pub fn end_position(&self) -> (r: WorldPoint)
        ensures
            r == self.end,
    {
        self.end
    }

    /// The segment's direction.
    pub fn direction(&self) -> (r: GridRotation)
        ensures
            r == self.dir,
    {
        self.dir
    }

    /// The segment's length in micro-units.
    pub fn length(&self) -> (r: i64)
        requires
            point_in_world_range(self.start),
            point_in_world_range(self.end),
        ensures
            r == seg_len(*self),
            0 <= r <= 4 * MAX_WORLD_COORD,
    {
        let dx: i64 = if self.end.x >= self.start.x {
            self.end.x - self.start.x
        } else {
            self.start.x - self.end.x
        };
        let dz: i64 = if self.end.z >= self.start.z {
            self.end.z - self.start.z
        } else {
            self.start.z - self.end.z
        };
        dx + dz
    }

    /// Replaces the start point, re-deriving the direction; the result is a
    /// plain (non-connector) segment, as with `new`.
    pub fn set_start_position(&mut self, start_position: WorldPoint)
        requires
            point_in_world_range(start_position),
            point_in_world_range(old(self).end),
            start_position != old(self).end,
            start_position.x == old(self).end.x || start_position.z == old(self).end.z,
        ensures
            *final(self) == ConveyorSegment::spec_between(start_position, old(self).end),
            seg_wf(*final(self)),
    {
        *self = ConveyorSegment::new(start_position, self.end);
    }

    /// Replaces the end point, re-deriving the direction; the result is a
    /// plain (non-connector) segment, as with `new`.
    pub fn set_end_position(&mut self, end_position: WorldPoint)
        requires
            point_in_world_range(old(self).start),
            point_in_world_range(end_position),
            old(self).start != end_position,
            old(self).start.x == end_position.x || old(self).start.z == end_position.z,
        ensures
            *final(self) == ConveyorSegment::spec_between(old(self).start, end_position),
            seg_wf(*final(self)),
    {
        *self = ConveyorSegment::new(self.start, end_position);
    }

    /// The non-connector segment `new` builds between two points.
    pub open spec fn spec_between(a: WorldPoint, b: WorldPoint) -> ConveyorSegment {
        ConveyorSegment { start: a, end: b, dir: axis_direction(a, b), is_connector: false }
    }

    /// Whether a world point lies on this segment.
    pub fn point_on_segment(&self, point: WorldPoint) -> (r: bool)
        requires
            point_in_world_range(self.start),
            point_in_world_range(self.end),
            point_in_world_range(point),
        ensures
            r == on_segment(*self, point),
    {
        if self.start.x == self.end.x && self.start.z == self.end.z {
            let ax: i64 = if point.x >= self.start.x {
                point.x - self.start.x
            } else {
                self.start.x - point.x
            };
            let az: i64 = if point.z >= self.start.z {
                point.z - self.start.z
            } else {
                self.start.z - point.z
            };
            ax <= SEGMENT_HALF_WIDTH && az <= SEGMENT_HALF_WIDTH
        } else if self.start.z == self.end.z {
            let lo: i64 = if self.start.x <= self.end.x {
                self.start.x
            } else {
                self.end.x
            };
            let hi: i64 = if self.start.x >= self.end.x {
                self.start.x
            } else {
                self.end.x
            };
            let az: i64 = if point.z >= self.start.z {
                point.z - self.start.z
            } else {
                self.start.z - point.z
            };
            lo <= point.x && point.x <= hi && az <= SEGMENT_HALF_WIDTH
        } else {
            let lo: i64 = if self.start.z <= self.end.z {
                self.start.z
            } else {
                self.end.z
            };
            let hi: i64 = if self.start.z >= self.end.z {
                self.start.z
            } else {
                self.end.z
            };
            let ax: i64 = if point.x >= self.start.x {
                point.x - self.start.x
            } else {
                self.start.x - point.x
            };
            lo <= point.z && point.z <= hi && ax <= SEGMENT_HALF_WIDTH
        }
    }

    /// Progress of the projection of `point` onto this segment, always in
    /// `[0, SCALE]` no matter where the point lies.
    pub fn progress_for_point(&self, point: WorldPoint) -> (r: i64)
        requires
            seg_wf(*self),
            point_in_world_range(point),
        ensures
            r == progress_of(*self, point),
            0 <= r <= SCALE,
    {
        let len: i64 = self.length();
        let dxs: (i64, i64) = self.dir.get_direction();
        let d: i64 = dxs.0 * (point.x - self.start.x) + dxs.1 * (point.z - self.start.z);
        if len == 0 {
            0
        } else if d <= 0 {
            0
        } else if d >= len {
            SCALE
        } else {
            proof {
                lemma_ratio_at_most_scale(d as int, len as int);
            }
            mul_div(d, SCALE, len)
        }
    }

    /// The world point at a progress value along this segment.
    pub fn position_for_progress(&self, progress: i64) -> (r: WorldPoint)
        requires
            seg_wf(*self),
            0 <= progress <= SCALE,
        ensures
            r == point_at_progress(*self, progress as int),
            point_in_world_range(r),
    {
        let len: i64 = self.length();
        proof {
            lemma_offset_at_most_len(len as int, progress as int);
        }
        let off: i64 = mul_div(len, progress, SCALE);
        let dxs: (i64, i64) = self.dir.get_direction();
        WorldPoint { x: self.start.x + dxs.0 * off, z: self.start.z + dxs.1 * off }
    }
}

/// A point at a progress value of a well-formed segment lies between the
/// endpoints, so it is a representable world point.
pub proof fn lemma_point_at_progress_in_range(s: ConveyorSegment, progress: int)
    requires
        seg_wf(s),
        0 <= progress <= SCALE,
    ensures
        point_in_world_range(point_at_progress(s, progress)),
{
    lemma_offset_at_most_len(seg_len(s), progress);
    let off = seg_len(s) * progress / (SCALE as int);
    let len = seg_len(s);
    let dx = direction_of(s.dir).0;
    let dz = direction_of(s.dir).1;
    assert((dx == 1 ==> dx * off == off && dx * len == len) && (dx == -1 ==> dx * off == -off && dx
        * len == -len) && (dx == 0 ==> dx * off == 0 && dx * len == 0)) by (nonlinear_arith);
    assert((dz == 1 ==> dz * off == off && dz * len == len) && (dz == -1 ==> dz * off == -off && dz
        * len == -len) && (dz == 0 ==> dz * off == 0 && dz * len == 0)) by (nonlinear_arith);
}

/// A projection's progress always lands inside `[0, SCALE]`.
pub proof fn lemma_progress_of_bounds(s: ConveyorSegment, p: WorldPoint)
    ensures
        0 <= progress_of(s, p) <= SCALE,
{
    let len = seg_len(s);
    let d = direction_of(s.dir).0 * (p.x - s.start.x) + direction_of(s.dir).1 * (p.z - s.start.z);
    if len != 0 && 0 < d < len {
        lemma_ratio_at_most_scale(d, len);
    }
}

/// For `0 < d <= len`, the fixed-point ratio `d * SCALE / len` is at most
/// `SCALE`.
proof fn lemma_ratio_at_most_scale(d: int, len: int)
    requires
        0 < d <= len,
    ensures
        0 <= d * (SCALE as int) / len <= SCALE,
{
    assert(d * (SCALE as int) <= len * (SCALE as int)) by (nonlinear_arith)
        requires
            0 < d <= len,
    ;
    vstd::arithmetic::div_mod::lemma_div_is_ordered(d * (SCALE as int), len * (SCALE as int), len);
    assert(len * (SCALE as int) == (SCALE as int) * len) by (nonlinear_arith);
    vstd::arithmetic::div_mod::lemma_div_by_multiple(SCALE as int, len);
    vstd::arithmetic::div_mod::lemma_div_pos_is_pos(d * (SCALE as int), len);
}

/// For progress in `[0, SCALE]`, the offset `len * progress / SCALE` stays
/// within `[0, len]`.
proof fn lemma_offset_at_most_len(len: int, progress: int)
    requires
        0 <= len,
        0 <= progress <= SCALE,
    ensures
        0 <= len * progress / (SCALE as int) <= len,
{
    assert(len * progress <= len * (SCALE as int)) by (nonlinear_arith)
        requires
            0 <= len,
            progress <= SCALE,
    ;
    assert(0 <= len * progress) by (nonlinear_arith)
        requires
            0 <= len,
            0 <= progress,
    ;
    vstd::arithmetic::div_mod::lemma_div_is_ordered(
        len * progress,
        len * (SCALE as int),
        SCALE as int,
    );
    vstd::arithmetic::div_mod::lemma_div_by_multiple(len, SCALE as int);
    vstd::arithmetic::div_mod::lemma_div_pos_is_pos(len * progress, SCALE as int);
}

} // verus!
