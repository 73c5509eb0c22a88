//! A verified conveyor-network engine for a grid-based factory game.
//!
//! Players place directional belt pieces on an integer grid; adjacent,
//! aligned pieces link into conveyor chains that carry discrete items from
//! producers to consumers.  The crate covers the grid orientation model, the
//! chain data structure, the derivation of straight geometric segments from a
//! chain, the merge/split maintenance of chain topology when pieces are
//! placed or removed, and the per-tick item advancement with no-passing
//! spacing and cross-chain hand-off.
//!
//! All geometry is carried in fixed-point micro-units so that every result
//! is exact; the surrounding application converts to and from whatever
//! floating-point representation its renderer uses.

pub mod belt;
pub mod builder;
pub mod debug;
pub mod grid;
pub mod network;
pub mod segment;
pub mod tick;
pub mod units;
