//! Debug overlay support: read-only views of the network's derived
//! geometry, in the shape an overlay renderer consumes.

use vstd::prelude::*;

use crate::network::ConveyorNetwork;
use crate::network::chain;
use crate::network::live;
use crate::segment::WorldPoint;

verus! {

/// The debug overlay facility: turns a chain's derived segments into plain
/// endpoint pairs for drawing.
pub struct SmallDebugPlugin;

impl SmallDebugPlugin {
    /// The endpoints of every segment of the chain in slot `c`, with the
    /// connector flag, in segment order; empty for a dead slot.
    pub fn segment_overlay(net: &ConveyorNetwork, c: usize) -> (r: Vec<(
        WorldPoint,
        WorldPoint,
        bool,
    )>)
        requires
            c < net.chains@.len(),
        ensures
            !live(*net, c as int) ==> r@.len() == 0,
            live(*net, c as int) ==> {
                &&& r@.len() == chain(*net, c as int).segments@.len()
                &&& forall|i: int|
                    0 <= i < r@.len() ==> #[trigger] r@[i] == (
                        chain(*net, c as int).segments@[i].start,
                        chain(*net, c as int).segments@[i].end,
                        chain(*net, c as int).segments@[i].is_connector,
                    )
            },
    {
        let mut r: Vec<(WorldPoint, WorldPoint, bool)> = Vec::new();
        let belt = match net.get_chain(c) {
            None => {
                return r;
            },
            Some(b) => b,
        };
        let n: usize = belt.segments.len();
        let mut k: usize = 0;
        while k < n
            invariant
                0 <= k <= n,
                n == belt.segments@.len(),
                r@.len() == k,
                forall|i: int|
                    0 <= i < k ==> #[trigger] r@[i] == (
                        belt.segments@[i].start,
                        belt.segments@[i].end,
                        belt.segments@[i].is_connector,
                    ),
            decreases n - k,
        {
            let s = belt.segments[k];
            r.push((s.start, s.end, s.is_connector));
            k += 1;
        }
        r
    }
}

} // verus!
