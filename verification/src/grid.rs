//! Integer grid addressing, the four-way discrete rotation, adjacency math,
//! and world/grid coordinate conversion.
//!
//! A `GridPosition` addresses one cell; a `GridRotation` is one of the four
//! cardinal directions a belt piece can face.  A continuous heading (in
//! milli-degrees) is bucketed into a rotation by four ninety-degree windows
//! offset by forty-five degrees, so the window boundaries fall between the
//! cardinal directions rather than on them.

use vstd::prelude::*;

use crate::units::FULL_TURN;
use crate::units::MAX_CELL_SIZE;
use crate::units::MAX_GRID_COORD;
use crate::units::euclid_mod;
use crate::units::floor_div;

verus! {

/// An integer cell address; equality defines cell identity.
#[derive(Clone, Copy, PartialEq, Eq, Structural, Debug, Hash)]
pub struct GridPosition {
    pub x: i32,
    pub y: i32,
}

/// One of the four cardinal facings of a placed piece.
#[derive(Clone, Copy, PartialEq, Eq, Structural, Debug)]
pub enum GridRotation {
    N,
    S,
    W,
    E,
}

/// The grid cell reached from `p` by one step along `rotation`'s own facing.
pub open spec fn neighbour_of(p: GridPosition, rotation: GridRotation) -> GridPosition {
    match rotation {
        GridRotation::N => (GridPosition { x: p.x, y: (p.y + 1) as i32 }),
        GridRotation::S => (GridPosition { x: p.x, y: (p.y - 1) as i32 }),
        GridRotation::W => (GridPosition { x: (p.x - 1) as i32, y: p.y }),
        GridRotation::E => (GridPosition { x: (p.x + 1) as i32, y: p.y }),
    }
}

/// The cell one step ahead of a piece at `p` facing `rotation`.
pub open spec fn forward_of(p: GridPosition, rotation: GridRotation) -> GridPosition {
    match rotation {
        GridRotation::N => (GridPosition { x: p.x, y: (p.y + 1) as i32 }),
        GridRotation::S => (GridPosition { x: p.x, y: (p.y - 1) as i32 }),
        GridRotation::W => (GridPosition { x: (p.x + 1) as i32, y: p.y }),
        GridRotation::E => (GridPosition { x: (p.x - 1) as i32, y: p.y }),
    }
}

/// The cell one step behind a piece at `p` facing `rotation`.
pub open spec fn back_of(p: GridPosition, rotation: GridRotation) -> GridPosition {
    match rotation {
        GridRotation::N => (GridPosition { x: p.x, y: (p.y - 1) as i32 }),
        GridRotation::S => (GridPosition { x: p.x, y: (p.y + 1) as i32 }),
        GridRotation::W => (GridPosition { x: (p.x - 1) as i32, y: p.y }),
        GridRotation::E => (GridPosition { x: (p.x + 1) as i32, y: p.y }),
    }
}

/// The cell one step to the left of a piece at `p` facing `rotation`.
pub open spec fn left_of(p: GridPosition, rotation: GridRotation) -> GridPosition {
    match rotation {
        GridRotation::N => (GridPosition { x: (p.x + 1) as i32, y: p.y }),
        GridRotation::S => (GridPosition { x: (p.x - 1) as i32, y: p.y }),
        GridRotation::W => (GridPosition { x: p.x, y: (p.y - 1) as i32 }),
        GridRotation::E => (GridPosition { x: p.x, y: (p.y + 1) as i32 }),
    }
}

/// The cell one step to the right of a piece at `p` facing `rotation`.
pub open spec fn right_of(p: GridPosition, rotation: GridRotation) -> GridPosition {
    match rotation {
        GridRotation::N => (GridPosition { x: (p.x - 1) as i32, y: p.y }),
        GridRotation::S => (GridPosition { x: (p.x + 1) as i32, y: p.y }),
        GridRotation::W => (GridPosition { x: p.x, y: (p.y + 1) as i32 }),
        GridRotation::E => (GridPosition { x: p.x, y: (p.y - 1) as i32 }),
    }
}

/// Coordinates safe for one-step neighbour arithmetic.
pub open spec fn pos_in_step_range(p: GridPosition) -> bool {
    i32::MIN < p.x < i32::MAX && i32::MIN < p.y < i32::MAX
}

impl GridPosition {
    /// The neighbouring cell in the absolute direction `direction`.
    pub fn get_neighbour(&self, direction: GridRotation) -> (r: GridPosition)
        requires
            pos_in_step_range(*self),
        ensures
            r == neighbour_of(*self, direction),
    {
        match direction {
            GridRotation::N => GridPosition { x: self.x, y: self.y + 1 },
            GridRotation::S => GridPosition { x: self.x, y: self.y - 1 },
            GridRotation::W => GridPosition { x: self.x - 1, y: self.y },
            GridRotation::E => GridPosition { x: self.x + 1, y: self.y },
        }
    }

    /// The four neighbouring cells, in the order north, east, south, west.
    pub fn get_all_surrounding_positions(&self) -> (r: Vec<GridPosition>)
        requires
            pos_in_step_range(*self),
        ensures
            r@.len() == 4,
            r@[0] == neighbour_of(*self, GridRotation::N),
            r@[1] == neighbour_of(*self, GridRotation::E),
            r@[2] == neighbour_of(*self, GridRotation::S),
            r@[3] == neighbour_of(*self, GridRotation::W),
    {
        let mut r: Vec<GridPosition> = Vec::new();
        r.push(self.get_neighbour(GridRotation::N));
        r.push(self.get_neighbour(GridRotation::E));
        r.push(self.get_neighbour(GridRotation::S));
        r.push(self.get_neighbour(GridRotation::W));
        r
    }

    /// The cell ahead of a piece standing here and facing `rotation`.
    pub fn get_relative_forward(&self, rotation: GridRotation) -> (r: GridPosition)
        requires
            pos_in_step_range(*self),
        ensures
            r == forward_of(*self, rotation),
    {
        match rotation {
            GridRotation::N => GridPosition { x: self.x, y: self.y + 1 },
            GridRotation::S => GridPosition { x: self.x, y: self.y - 1 },
            GridRotation::W => GridPosition { x: self.x + 1, y: self.y },
            GridRotation::E => GridPosition { x: self.x - 1, y: self.y },
        }
    }

    /// The cell behind a piece standing here and facing `rotation`.
    pub fn get_relative_back(&self, rotation: GridRotation) -> (r: GridPosition)
        requires
            pos_in_step_range(*self),
        ensures
            r == back_of(*self, rotation),
    {
        match rotation {
            GridRotation::N => GridPosition { x: self.x, y: self.y - 1 },
            GridRotation::S => GridPosition { x: self.x, y: self.y + 1 },
            GridRotation::W => GridPosition { x: self.x - 1, y: self.y },
            GridRotation::E => GridPosition { x: self.x + 1, y: self.y },
        }
    }

    /// The cell to the left of a piece standing here and facing `rotation`.
    pub fn get_relative_left(&self, rotation: GridRotation) -> (r: GridPosition)
        requires
            pos_in_step_range(*self),
        ensures
            r == left_of(*self, rotation),
    {
        match rotation {
            GridRotation::N => GridPosition { x: self.x + 1, y: self.y },
            GridRotation::S => GridPosition { x: self.x - 1, y: self.y },
            GridRotation::W => GridPosition { x: self.x, y: self.y - 1 },
            GridRotation::E => GridPosition { x: self.x, y: self.y + 1 },
        }
    }

    /// The cell to the right of a piece standing here and facing `rotation`.
    pub fn get_relative_right(&self, rotation: GridRotation) -> (r: GridPosition)
        requires
            pos_in_step_range(*self),
        ensures
            r == right_of(*self, rotation),
    {
        match rotation {
            GridRotation::N => GridPosition { x: self.x - 1, y: self.y },
            GridRotation::S => GridPosition { x: self.x + 1, y: self.y },
            GridRotation::W => GridPosition { x: self.x, y: self.y + 1 },
            GridRotation::E => GridPosition { x: self.x, y: self.y - 1 },
        }
    }

    /// Componentwise sum of two cell addresses.
    pub fn plus(&self, rhs: GridPosition) -> (r: GridPosition)
        requires
            i32::MIN <= self.x + rhs.x <= i32::MAX,
            i32::MIN <= self.y + rhs.y <= i32::MAX,
        ensures
            r.x == self.x + rhs.x,
            r.y == self.y + rhs.y,
    {
        GridPosition { x: self.x + rhs.x, y: self.y + rhs.y }
    }
}

/// The world-axis unit vector a rotation points along, as `(x, z)`
/// components; north is the positive `z` axis.
pub open spec fn direction_of(rotation: GridRotation) -> (int, int) {
    match rotation {
        GridRotation::N => (0int, 1int),
        GridRotation::S => (0int, -1int),
        GridRotation::W => (1int, 0int),
        GridRotation::E => (-1int, 0int),
    }
}

/// The rotation a normalized heading (milli-degrees in `[0, FULL_TURN)`)
/// buckets into: each cardinal direction owns the ninety-degree window
/// centred on it.
pub open spec fn bucket_of_normalized(n: int) -> GridRotation {
    if n < 45_000 || n >= 315_000 {
        GridRotation::N
    } else if n < 135_000 {
        GridRotation::W
    } else if n < 225_000 {
        GridRotation::S
    } else {
        GridRotation::E
    }
}

/// The rotation an arbitrary heading buckets into, after normalization
/// modulo a full turn.
pub open spec fn bucket_of(heading_millideg: int) -> GridRotation {
    bucket_of_normalized(heading_millideg % (FULL_TURN as int))
}

impl GridRotation {
    /// How far apart two rotations are: `0` for equal, `1` for
    /// perpendicular, `2` for opposite.
    pub fn difference(&self, other: GridRotation) -> (r: i32)
        ensures
            r == rotation_difference(*self, other),
    {
        match (self, other) {
            (GridRotation::N, GridRotation::N) => 0,
            (GridRotation::N, GridRotation::S) => 2,
            (GridRotation::N, GridRotation::W) => 1,
            (GridRotation::N, GridRotation::E) => 1,
            (GridRotation::S, GridRotation::N) => 2,
            (GridRotation::S, GridRotation::S) => 0,
            (GridRotation::S, GridRotation::W) => 1,
            (GridRotation::S, GridRotation::E) => 1,
            (GridRotation::W, GridRotation::N) => 1,
            (GridRotation::W, GridRotation::S) => 1,
            (GridRotation::W, GridRotation::W) => 0,
            (GridRotation::W, GridRotation::E) => 2,
            (GridRotation::E, GridRotation::N) => 1,
            (GridRotation::E, GridRotation::S) => 1,
            (GridRotation::E, GridRotation::W) => 2,
            (GridRotation::E, GridRotation::E) => 0,
        }
    }

    /// The rotation of `other` expressed in the frame of `self`.
    pub fn get_relative_rotation(&self, other: GridRotation) -> (r: GridRotation)
        ensures
            r == relative_rotation_of(*self, other),
    {
        match (self, other) {
            (GridRotation::N, GridRotation::N) => GridRotation::N,
            (GridRotation::N, GridRotation::S) => GridRotation::N,
            (GridRotation::N, GridRotation::W) => GridRotation::N,
            (GridRotation::N, GridRotation::E) => GridRotation::N,
            (GridRotation::S, GridRotation::N) => GridRotation::S,
            (GridRotation::S, GridRotation::S) => GridRotation::N,
            (GridRotation::S, GridRotation::W) => GridRotation::E,
            (GridRotation::S, GridRotation::E) => GridRotation::W,
            (GridRotation::W, GridRotation::N) => GridRotation::W,
            (GridRotation::W, GridRotation::S) => GridRotation::E,
            (GridRotation::W, GridRotation::W) => GridRotation::S,
            (GridRotation::W, GridRotation::E) => GridRotation::N,
            (GridRotation::E, GridRotation::N) => GridRotation::E,
            (GridRotation::E, GridRotation::S) => GridRotation::W,
            (GridRotation::E, GridRotation::W) => GridRotation::N,
            (GridRotation::E, GridRotation::E) => GridRotation::S,
        }
    }

    /// The world-axis unit vector this rotation points along, as `(x, z)`
    /// micro-unit-free components.
    pub fn get_direction(&self) -> (r: (i64, i64))
        ensures
            (r.0 as int, r.1 as int) == direction_of(*self),
    {
        match self {
            GridRotation::N => (0, 1),
            GridRotation::S => (0, -1),
            GridRotation::W => (1, 0),
            GridRotation::E => (-1, 0),
        }
    }

    /// Buckets a continuous heading, in milli-degrees, into the rotation
    /// whose ninety-degree window contains it.
    pub fn from_heading(heading_millideg: i64) -> (r: GridRotation)
        requires
            i64::MIN + FULL_TURN <= heading_millideg,
        ensures
            r == bucket_of(heading_millideg as int),
    {
        let n: i64 = euclid_mod(heading_millideg, FULL_TURN);
        if n < 45_000 || n >= 315_000 {
            GridRotation::N
        } else if n < 135_000 {
            GridRotation::W
        } else if n < 225_000 {
            GridRotation::S
        } else {
            GridRotation::E
        }
    }
}

/// The discrete distance between two rotations.
pub open spec fn rotation_difference(a: GridRotation, b: GridRotation) -> int {
    if a == b {
        0int
    } else if direction_of(a).0 + direction_of(b).0 == 0 && direction_of(a).1 + direction_of(b).1
        == 0 {
        2int
    } else {
        1int
    }
}

/// The rotation of `b` in the frame of `a`.
pub open spec fn relative_rotation_of(a: GridRotation, b: GridRotation) -> GridRotation {
    match (a, b) {
        (GridRotation::N, _) => GridRotation::N,
        (GridRotation::S, GridRotation::N) => GridRotation::S,
        (GridRotation::S, GridRotation::S) => GridRotation::N,
        (GridRotation::S, GridRotation::W) => GridRotation::E,
        (GridRotation::S, GridRotation::E) => GridRotation::W,
        (GridRotation::W, GridRotation::N) => GridRotation::W,
        (GridRotation::W, GridRotation::S) => GridRotation::E,
        (GridRotation::W, GridRotation::W) => GridRotation::S,
        (GridRotation::W, GridRotation::E) => GridRotation::N,
        (GridRotation::E, GridRotation::N) => GridRotation::E,
        (GridRotation::E, GridRotation::S) => GridRotation::W,
        (GridRotation::E, GridRotation::W) => GridRotation::N,
        (GridRotation::E, GridRotation::E) => GridRotation::S,
    }
}

/// Bucketing is periodic: a heading and the same heading one full turn
/// later fall into the same rotation window.
pub proof fn lemma_bucket_periodic(heading_millideg: int)
    ensures
        bucket_of(heading_millideg + FULL_TURN) == bucket_of(heading_millideg),
{
    vstd::arithmetic::div_mod::lemma_mod_add_multiples_vanish(
        heading_millideg,
        FULL_TURN as int,
    );
}

/// The discrete rotation distances: opposite rotations differ by two,
/// perpendicular ones by one, equal ones by zero.
pub proof fn lemma_rotation_differences()
    ensures
        rotation_difference(GridRotation::N, GridRotation::S) == 2,
        rotation_difference(GridRotation::N, GridRotation::E) == 1,
        rotation_difference(GridRotation::N, GridRotation::W) == 1,
        forall|x: GridRotation| #[trigger] rotation_difference(x, x) == 0,
{
}

/// World geometry of the grid: a fixed, positive cell size in micro-units.
#[derive(Clone, Copy, PartialEq, Eq, Structural, Debug)]
pub struct WorldGrid {
    pub grid_size: i64,
}

/// A cell size the engine accepts.
pub open spec fn cell_size_ok(grid_size: i64) -> bool {
    0 < grid_size <= MAX_CELL_SIZE
}

/// A grid position that world conversion accepts.
pub open spec fn pos_in_grid_range(p: GridPosition) -> bool {
    -MAX_GRID_COORD <= p.x <= MAX_GRID_COORD && -MAX_GRID_COORD <= p.y <= MAX_GRID_COORD
}

/// World x coordinate of a cell's centre.
pub open spec fn world_x_of(p: GridPosition, grid_size: i64) -> int {
    p.x * grid_size
}

/// World z coordinate of a cell's centre.
pub open spec fn world_z_of(p: GridPosition, grid_size: i64) -> int {
    p.y * grid_size
}

/// The grid coordinate whose cell contains a world coordinate: cells are
/// half-open intervals of width `grid_size` centred on multiples of it.
pub open spec fn grid_coord_of(w: int, grid_size: i64) -> int {
    (w + grid_size / 2) / (grid_size as int)
}

impl WorldGrid {
    /// A grid with the given cell size.
    pub fn new(grid_size: i64) -> (r: WorldGrid)
        requires
            cell_size_ok(grid_size),
        ensures
            r.grid_size == grid_size,
    {
        WorldGrid { grid_size }
    }

    /// World coordinates, in micro-units, of the centre of a cell.
    pub fn grid_to_world(&self, grid_position: &GridPosition) -> (r: (i64, i64))
        requires
            cell_size_ok(self.grid_size),
            pos_in_grid_range(*grid_position),
        ensures
            r.0 == world_x_of(*grid_position, self.grid_size),
            r.1 == world_z_of(*grid_position, self.grid_size),
            -MAX_GRID_COORD * MAX_CELL_SIZE <= r.0 <= MAX_GRID_COORD * MAX_CELL_SIZE,
            -MAX_GRID_COORD * MAX_CELL_SIZE <= r.1 <= MAX_GRID_COORD * MAX_CELL_SIZE,
    {
        proof {
            lemma_coord_product_bound(grid_position.x as int, self.grid_size as int);
            lemma_coord_product_bound(grid_position.y as int, self.grid_size as int);
        }
        let wx: i64 = (grid_position.x as i64) * self.grid_size;
        let wz: i64 = (grid_position.y as i64) * self.grid_size;
        (wx, wz)
    }

    /// The cell containing a world point given by its `(x, z)` coordinates
    /// in micro-units.
    pub fn get_grid_position_from_world_position(&self, wx: i64, wz: i64) -> (r: GridPosition)
        requires
            cell_size_ok(self.grid_size),
            -MAX_GRID_COORD * self.grid_size < wx + self.grid_size / 2,
            wx + self.grid_size / 2 < MAX_GRID_COORD * self.grid_size,
            -MAX_GRID_COORD * self.grid_size < wz + self.grid_size / 2,
            wz + self.grid_size / 2 < MAX_GRID_COORD * self.grid_size,
        ensures
            r.x == grid_coord_of(wx as int, self.grid_size),
            r.y == grid_coord_of(wz as int, self.grid_size),
            pos_in_grid_range(r),
    {
        proof {
            assert(-MAX_GRID_COORD * self.grid_size >= -MAX_GRID_COORD * MAX_CELL_SIZE)
                by (nonlinear_arith)
                requires
                    0 < self.grid_size <= MAX_CELL_SIZE,
            ;
        }
        let gx: i64 = floor_div(wx + self.grid_size / 2, self.grid_size);
        let gz: i64 = floor_div(wz + self.grid_size / 2, self.grid_size);
        proof {
            lemma_floor_div_in_grid_range(wx as int + self.grid_size / 2, self.grid_size as int);
            lemma_floor_div_in_grid_range(wz as int + self.grid_size / 2, self.grid_size as int);
        }
        GridPosition { x: gx as i32, y: gz as i32 }
    }
}

/// A grid coordinate within range times a legal cell size stays within the
/// world-coordinate product bound.
pub proof fn lemma_coord_product_bound(c: int, s: int)
    requires
        -MAX_GRID_COORD <= c <= MAX_GRID_COORD,
        0 < s <= MAX_CELL_SIZE,
    ensures
        -MAX_GRID_COORD * MAX_CELL_SIZE <= c * s <= MAX_GRID_COORD * MAX_CELL_SIZE,
{
    assert(-MAX_GRID_COORD * MAX_CELL_SIZE <= c * s <= MAX_GRID_COORD * MAX_CELL_SIZE)
        by (nonlinear_arith)
        requires
            -MAX_GRID_COORD <= c <= MAX_GRID_COORD,
            0 < s <= MAX_CELL_SIZE,
    ;
}

/// A numerator strictly inside the representable band divides to a grid
/// coordinate strictly inside the grid range.
proof fn lemma_floor_div_in_grid_range(n: int, s: int)
    requires
        0 < s,
        -MAX_GRID_COORD * s < n < MAX_GRID_COORD * s,
    ensures
        -MAX_GRID_COORD <= n / s <= MAX_GRID_COORD,
{
    assert(-MAX_GRID_COORD * s == s * (-MAX_GRID_COORD) + 0) by (nonlinear_arith);
    vstd::arithmetic::div_mod::lemma_fundamental_div_mod_converse(
        -MAX_GRID_COORD * s,
        s,
        -MAX_GRID_COORD as int,
        0,
    );
    assert(MAX_GRID_COORD * s == s * (MAX_GRID_COORD as int) + 0) by (nonlinear_arith);
    vstd::arithmetic::div_mod::lemma_fundamental_div_mod_converse(
        MAX_GRID_COORD * s,
        s,
        MAX_GRID_COORD as int,
        0,
    );
    vstd::arithmetic::div_mod::lemma_div_is_ordered(-MAX_GRID_COORD * s, n, s);
    vstd::arithmetic::div_mod::lemma_div_is_ordered(n, MAX_GRID_COORD * s, s);
}

} // verus!
