//! Fixed-point units and the small exact-arithmetic helpers the engine uses.
//!
//! World distances are measured in micro-units (`SCALE` micro-units make one
//! world unit) and segment progress runs from `0` to `SCALE`.  Headings are
//! measured in milli-degrees.  All helpers work on non-negative operands so
//! that executable division coincides with the mathematical (Euclidean)
//! division used in specifications.

use vstd::prelude::*;

verus! {

/// Micro-units per world unit; also the fixed-point value of a full segment
/// of progress.
pub const SCALE: i64 = 1_000_000;

/// Milli-degrees in a full turn.
pub const FULL_TURN: i64 = 360_000;

/// Largest magnitude of a grid coordinate the engine converts to world
/// coordinates.
pub const MAX_GRID_COORD: i32 = 1_000_000;

/// Largest cell size, in micro-units (one thousand world units).
pub const MAX_CELL_SIZE: i64 = 1_000_000_000;

/// Bound on every world coordinate the engine stores, in micro-units.
pub const MAX_WORLD_COORD: i64 = 2_000_000_000_000_000;

/// Largest belt speed, in micro-units per second.
pub const MAX_SPEED: i64 = 1_000_000_000;

/// Longest single tick, in micro-seconds.
pub const MAX_TICK_MICROS: i64 = 10_000_000;

/// Largest item width, in micro-units.
pub const MAX_ITEM_WIDTH: i64 = 1_000_000_000;

/// Quotient of two non-negative machine integers; equals the mathematical
/// floor quotient because both operands are non-negative.
pub fn div_nn(a: i64, b: i64) -> (r: i64)
    requires
        0 <= a,
        0 < b,
    ensures
        r == a as int / b as int,
        0 <= r <= a,
{
    proof {
        vstd::arithmetic::div_mod::lemma_div_is_ordered_by_denominator(a as int, 1, b as int);
        vstd::arithmetic::div_mod::lemma_div_basics(a as int);
        vstd::arithmetic::div_mod::lemma_div_pos_is_pos(a as int, b as int);
    }
    let q: u64 = (a as u64) / (b as u64);
    q as i64
}

/// Exact `a * b / d` on non-negative operands, computed without overflow
/// through a wide intermediate.
pub fn mul_div(a: i64, b: i64, d: i64) -> (r: i64)
    requires
        0 <= a,
        0 <= b,
        0 < d,
        a * b / (d as int) <= i64::MAX,
    ensures
        r == a * b / (d as int),
        0 <= r,
{
    proof {
        assert(a * b <= u128::MAX) by (nonlinear_arith)
            requires
                0 <= a <= i64::MAX,
                0 <= b <= i64::MAX,
        ;
        vstd::arithmetic::div_mod::lemma_div_pos_is_pos(a as int * b as int, d as int);
    }
    let p: u128 = (a as u128) * (b as u128);
    let q: u128 = p / (d as u128);
    q as i64
}

/// Floor quotient for a possibly negative numerator and a positive
/// denominator; equals the specification-level `/`.
pub fn floor_div(a: i64, b: i64) -> (r: i64)
    requires
        i64::MIN < a,
        0 < b,
    ensures
        r == a as int / b as int,
{
    if a >= 0 {
        div_nn(a, b)
    } else {
        let n: i64 = -a;
        let t: i64 = div_nn(n - 1, b);
        proof {
            lemma_neg_floor_div(n as int, b as int);
        }
        -(t + 1)
    }
}

/// For `n >= 1` and `b >= 1`, the floor quotient of `-n` by `b` is
/// `-((n - 1) / b) - 1`.
proof fn lemma_neg_floor_div(n: int, b: int)
    requires
        1 <= n,
        1 <= b,
    ensures
        (-n) / b == -((n - 1) / b) - 1,
{
    let q = n / b;
    let s = n % b;
    vstd::arithmetic::div_mod::lemma_fundamental_div_mod(n, b);
    vstd::arithmetic::div_mod::lemma_mod_bound(n, b);
    if s == 0 {
        assert(n - 1 == (q - 1) * b + (b - 1)) by (nonlinear_arith)
            requires
                n == q * b,
                1 <= b,
        ;
        vstd::arithmetic::div_mod::lemma_fundamental_div_mod_converse(n - 1, b, q - 1, b - 1);
        assert(-n == (-q) * b + 0) by (nonlinear_arith)
            requires
                n == q * b,
        ;
        vstd::arithmetic::div_mod::lemma_fundamental_div_mod_converse(-n, b, -q, 0);
    } else {
        assert(n - 1 == q * b + (s - 1)) by (nonlinear_arith)
            requires
                n == q * b + s,
        ;
        vstd::arithmetic::div_mod::lemma_fundamental_div_mod_converse(n - 1, b, q, s - 1);
        assert(-n == (-q - 1) * b + (b - s)) by (nonlinear_arith)
            requires
                n == q * b + s,
        ;
        vstd::arithmetic::div_mod::lemma_fundamental_div_mod_converse(-n, b, -q - 1, b - s);
    }
}

/// Euclidean remainder of `a` by a positive modulus; equals the
/// specification-level `%`, which is always non-negative.
pub fn euclid_mod(a: i64, m: i64) -> (r: i64)
    requires
        0 < m,
        i64::MIN + m <= a,
    ensures
        r == a as int % m as int,
        0 <= r < m,
{
    let q: i64 = floor_div(a, m);
    proof {
        vstd::arithmetic::div_mod::lemma_fundamental_div_mod(a as int, m as int);
        vstd::arithmetic::div_mod::lemma_mod_bound(a as int, m as int);
        assert(q * m == m * (a as int / m as int)) by (nonlinear_arith)
            requires
                q == a as int / m as int,
        ;
    }
    a - q * m
}

} // verus!
