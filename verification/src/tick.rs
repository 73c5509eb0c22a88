//! The per-tick item transport simulator.
//!
//! Each tick advances a chain's items in their maintained front-to-back
//! order.  A per-segment reserved limit, initialized to full progress and
//! tightened by each processed item to its own final progress minus its
//! width, enforces a single-lane no-passing queue: an item can never advance
//! past the space already claimed this tick by the item ahead of it.  An
//! item that reaches its segment's far end carries its overflow into the
//! next segment, subject to that segment's own reservation; an item at the
//! end of the last real segment of a chain with a connected neighbour is
//! pinned there and a cross-chain hand-off is requested instead.

use vstd::prelude::*;

use crate::belt::BeltItem;
use crate::belt::ConveyorBelt;
use crate::belt::belt_inv;
use crate::belt::item_wf;
use crate::segment::ConveyorSegment;
use crate::segment::point_at_progress;
use crate::segment::seg_len;
use crate::segment::seg_wf;
use crate::units::MAX_SPEED;
use crate::units::MAX_TICK_MICROS;
use crate::units::SCALE;
use crate::units::mul_div;

verus! {

/// Largest distance an item can be asked to advance in one tick, in
/// micro-units: full speed over the longest tick.
pub const MAX_ADVANCE: i64 = 10_000_000_000;

/// The index of a chain's last real (non-connector) segment.
pub open spec fn last_real_index(segs: Seq<ConveyorSegment>) -> int {
    if segs.last().is_connector {
        segs.len() - 2
    } else {
        segs.len() - 1
    }
}

/// A value clamped into the progress range `[0, SCALE]`.
pub open spec fn clamp01(v: int) -> int {
    if v < 0 {
        0int
    } else if v > SCALE {
        SCALE as int
    } else {
        v
    }
}

/// Smaller of two mathematical integers.
pub open spec fn min2(a: int, b: int) -> int {
    if a <= b {
        a
    } else {
        b
    }
}

/// The progress one item width spans on a segment; a whole segment on
/// degenerate zero-length geometry.
pub open spec fn width_progress(w: int, len: int) -> int {
    if len == 0 {
        SCALE as int
    } else {
        w * SCALE / len
    }
}

/// The progress an advance distance spans on a segment; a whole segment on
/// degenerate zero-length geometry.
pub open spec fn delta_progress(adv: int, len: int) -> int {
    if len == 0 {
        SCALE as int
    } else {
        adv * SCALE / len
    }
}

/// One item's move, per the reservation rules: candidate progress is the
/// current progress plus the advance, clamped to the segment's reserved
/// limit and the progress range; reaching the far end carries the overflow
/// into the next segment when that segment's reservation admits anyone, and
/// requests a hand-off when the chain ends into a connected neighbour.  The
/// result is the moved item, the tightened reservations, and whether a
/// hand-off was requested.
pub open spec fn step_item(
    segs: Seq<ConveyorSegment>,
    reserved: Seq<i64>,
    it: BeltItem,
    adv: int,
    connected: bool,
) -> (BeltItem, Seq<i64>, bool) {
    let idx = it.segment_index as int;
    let len = seg_len(segs[idx]);
    let cand = it.segment_progress + delta_progress(adv, len);
    let p1 = clamp01(min2(cand, reserved[idx] as int));
    let lr = last_real_index(segs);
    if p1 == SCALE && idx < lr {
        let nlen = seg_len(segs[idx + 1]);
        let ov = (cand - SCALE) * len / (SCALE as int);
        let ovp = if nlen == 0 {
            SCALE as int
        } else {
            ov * SCALE / nlen
        };
        if reserved[idx + 1] >= 0 {
            let p2 = clamp01(min2(ovp, reserved[idx + 1] as int));
            let nit = BeltItem {
                segment_index: (idx + 1) as usize,
                segment_progress: p2 as i64,
                position: point_at_progress(segs[idx + 1], p2),
                ..it
            };
            (nit, reserved.update(idx + 1, (p2 - width_progress(it.item_width as int, nlen)) as i64), false)
        } else {
            let nit = BeltItem {
                segment_progress: SCALE,
                position: point_at_progress(segs[idx], SCALE as int),
                ..it
            };
            (nit, reserved.update(idx, (SCALE - width_progress(it.item_width as int, len)) as i64), false)
        }
    } else if p1 == SCALE && idx == lr && connected {
        // The hand-off pin: the item's cached position moves to the bridge's
        // far end, the spot the destination chain tests and settles.  Should
        // the transfer be refused, the pin stays, and the position lies on
        // the connector rather than on a carrying segment: a later rebuild
        // of this chain then reports the item as the fatal
        // desynchronization instead of silently relocating it.
        let nit = BeltItem { segment_progress: SCALE, position: segs.last().end, ..it };
        (nit, reserved.update(idx, (SCALE - width_progress(it.item_width as int, len)) as i64), true)
    } else {
        let nit = BeltItem {
            segment_progress: p1 as i64,
            position: point_at_progress(segs[idx], p1),
            ..it
        };
        (nit, reserved.update(idx, (p1 - width_progress(it.item_width as int, len)) as i64), false)
    }
}

/// The whole tick of an item list, processed front to back: each item steps
/// under the reservations the items before it left behind.  Yields the
/// moved items, the final reservations, and one hand-off flag per item.
pub open spec fn sim_from(
    segs: Seq<ConveyorSegment>,
    adv: int,
    connected: bool,
    items: Seq<BeltItem>,
    reserved: Seq<i64>,
) -> (Seq<BeltItem>, Seq<i64>, Seq<bool>)
    decreases items.len(),
{
    if items.len() == 0 {
        (Seq::<BeltItem>::empty(), reserved, Seq::<bool>::empty())
    } else {
        let first = step_item(segs, reserved, items[0], adv, connected);
        let rest = sim_from(segs, adv, connected, items.drop_first(), first.1);
        (seq![first.0] + rest.0, rest.1, seq![first.2] + rest.2)
    }
}

/// The reservations a tick starts from: every segment fully available.
pub open spec fn init_reserved(n: int) -> Seq<i64> {
    Seq::<i64>::new(n as nat, |i: int| SCALE)
}

/// Reservation values never exceed full progress.
pub open spec fn reserved_wf(reserved: Seq<i64>) -> bool {
    forall|s: int| 0 <= s < reserved.len() ==> #[trigger] reserved[s] <= SCALE
}

/// Whether the lexicographic pair `(a_idx, a_p)` is at most `(b_idx, b_p)`.
pub open spec fn lex_le(a_idx: int, a_p: int, b_idx: int, b_p: int) -> bool {
    a_idx < b_idx || (a_idx == b_idx && a_p <= b_p)
}

/// The furthest lexicographic `(segment, progress)` position an item
/// starting on segment `s` can end this tick under the given reservations:
/// with the segment fully available and the next one admitting anyone, the
/// item may enter the next segment up to its reserved limit; with the next
/// segment blocked (or none), it may at most park at the end of its own;
/// and a tightened own segment caps it below its reserved limit.
pub open spec fn cap_of(segs: Seq<ConveyorSegment>, reserved: Seq<i64>, s: int) -> (int, int) {
    let lr = last_real_index(segs);
    if reserved[s] >= SCALE {
        if s < lr && reserved[s + 1] >= 0 {
            (s + 1, clamp01(reserved[s + 1] as int))
        } else {
            (s, SCALE as int)
        }
    } else {
        (s, clamp01(reserved[s] as int))
    }
}

/// Whether an item sits at or below a lexicographic cap.
pub open spec fn item_below(it: BeltItem, c: (int, int)) -> bool {
    lex_le(it.segment_index as int, it.segment_progress as int, c.0, c.1)
}

/// The cap is monotone in the starting segment.
proof fn lemma_cap_mono(segs: Seq<ConveyorSegment>, reserved: Seq<i64>, a: int, b: int)
    requires
        0 <= a <= b < reserved.len(),
    ensures
        lex_le(
            cap_of(segs, reserved, a).0,
            cap_of(segs, reserved, a).1,
            cap_of(segs, reserved, b).0,
            cap_of(segs, reserved, b).1,
        ),
{
}

/// An item's index never exceeds the last real segment's.
proof fn lemma_item_at_most_last_real(segs: Seq<ConveyorSegment>, it: BeltItem)
    requires
        crate::belt::segments_wf(segs),
        item_wf(it, segs),
    ensures
        0 <= it.segment_index as int <= last_real_index(segs),
{
    if segs.last().is_connector {
        assert(it.segment_index as int != segs.len() - 1);
    }
}

/// The progress one item width spans is non-negative and bounded, so the
/// reservation arithmetic stays within machine range.
proof fn lemma_width_progress_bounds(w: int, len: int)
    requires
        0 < w <= crate::units::MAX_ITEM_WIDTH,
        0 <= len,
    ensures
        0 <= width_progress(w, len) <= crate::units::MAX_ITEM_WIDTH * SCALE,
{
    if len == 0 {
    } else {
        assert(0 <= w * SCALE <= crate::units::MAX_ITEM_WIDTH * SCALE) by (nonlinear_arith)
            requires
                0 < w <= crate::units::MAX_ITEM_WIDTH,
        ;
        vstd::arithmetic::div_mod::lemma_div_pos_is_pos(w * SCALE, len);
        vstd::arithmetic::div_mod::lemma_div_is_ordered_by_denominator(w * SCALE, 1, len);
        vstd::arithmetic::div_mod::lemma_div_basics(w * SCALE);
    }
}

/// What one step guarantees: the moved item is well-formed, lands at or
/// below the entry cap of its starting segment, the tightened reservations
/// cap its own segment at or below the item itself, and every cap from the
/// item's segment onward only tightens.
proof fn lemma_step_props(
    segs: Seq<ConveyorSegment>,
    reserved: Seq<i64>,
    it: BeltItem,
    adv: int,
    connected: bool,
)
    requires
        crate::belt::segments_wf(segs),
        1 <= segs.len() <= usize::MAX,
        item_wf(it, segs),
        0 <= adv,
        reserved.len() == segs.len(),
        reserved_wf(reserved),
    ensures
        ({
            let r = step_item(segs, reserved, it, adv, connected);
            let s = it.segment_index as int;
            &&& item_wf(r.0, segs)
            &&& r.0.item_entity == it.item_entity
            &&& r.0.item_width == it.item_width
            &&& r.1.len() == reserved.len()
            &&& reserved_wf(r.1)
            &&& item_below(r.0, cap_of(segs, reserved, s))
            &&& lex_le(
                cap_of(segs, r.1, s).0,
                cap_of(segs, r.1, s).1,
                r.0.segment_index as int,
                r.0.segment_progress as int,
            )
            &&& forall|t: int|
                s <= t < segs.len() ==> lex_le(
                    cap_of(segs, #[trigger] r.1, t).0,
                    cap_of(segs, r.1, t).1,
                    cap_of(segs, reserved, t).0,
                    cap_of(segs, reserved, t).1,
                )
        }),
{
    let r = step_item(segs, reserved, it, adv, connected);
    let s = it.segment_index as int;
    let len = seg_len(segs[s]);
    let cand = it.segment_progress + delta_progress(adv, len);
    let p1 = clamp01(min2(cand, reserved[s] as int));
    let lr = last_real_index(segs);
    lemma_item_at_most_last_real(segs, it);
    assert(0 <= delta_progress(adv, len)) by {
        if len != 0 {
            vstd::arithmetic::div_mod::lemma_div_pos_is_pos(adv * SCALE, len);
            assert(0 <= adv * SCALE) by (nonlinear_arith)
                requires
                    0 <= adv,
            ;
        }
    };
    lemma_width_progress_bounds(it.item_width as int, len);
    if p1 == SCALE && s < lr {
        let nlen = seg_len(segs[s + 1]);
        let ov = (cand - SCALE) * len / (SCALE as int);
        let ovp = if nlen == 0 {
            SCALE as int
        } else {
            ov * SCALE / nlen
        };
        lemma_width_progress_bounds(it.item_width as int, nlen);
        assert(reserved[s] >= SCALE);
        if reserved[s + 1] >= 0 {
            let p2 = clamp01(min2(ovp, reserved[s + 1] as int));
            let wp2 = width_progress(it.item_width as int, nlen);
            crate::segment::lemma_point_at_progress_in_range(segs[s + 1], p2);
            assert(!segs[s + 1].is_connector) by {
                if segs.last().is_connector {
                    assert(s + 1 < segs.len() - 1 || s + 1 == lr);
                }
            };
            assert(r.1[s + 1] == p2 - wp2);
            assert(r.1[s] == reserved[s]);
            assert(r.0.segment_index as int == s + 1 && r.0.segment_progress as int == p2);
            if p2 - wp2 >= 0 {
                assert(cap_of(segs, r.1, s) == ((s + 1) as int, clamp01(p2 - wp2)));
            } else {
                assert(cap_of(segs, r.1, s) == (s, SCALE as int));
            }
        } else {
            let wp1 = width_progress(it.item_width as int, len);
            crate::segment::lemma_point_at_progress_in_range(segs[s], SCALE as int);
            assert(r.1[s] == SCALE - wp1);
            assert(r.0.segment_index as int == s && r.0.segment_progress as int == SCALE);
            if wp1 == 0 {
                assert(r.1[s + 1] == reserved[s + 1]);
                assert(cap_of(segs, r.1, s) == (s, SCALE as int));
            } else {
                assert(cap_of(segs, r.1, s) == (s, clamp01(SCALE - wp1)));
            }
        }
    } else if p1 == SCALE && s == lr && connected {
        let wp1 = width_progress(it.item_width as int, len);
        assert(seg_wf(segs[segs.len() - 1]));
        assert(r.1[s] == SCALE - wp1);
        assert(r.0.segment_index as int == s && r.0.segment_progress as int == SCALE);
        assert(!(s < lr));
    } else {
        let wp1 = width_progress(it.item_width as int, len);
        crate::segment::lemma_point_at_progress_in_range(segs[s], p1);
        assert(r.1[s] == p1 - wp1);
        assert(r.0.segment_index as int == s && r.0.segment_progress as int == p1);
        if p1 - wp1 >= SCALE {
            assert(wp1 == 0 && p1 == SCALE);
            assert(!(s < lr) || !(p1 == SCALE && s < lr));
            assert(s == lr && !connected);
            assert(cap_of(segs, r.1, s) == (s, SCALE as int));
        } else {
            assert(cap_of(segs, r.1, s) == (s, clamp01(p1 - wp1)));
        }
    }
}

/// Every item of a list sits at or below one cap.
pub open spec fn items_below(out: Seq<BeltItem>, c: (int, int)) -> bool {
    forall|i: int| 0 <= i < out.len() ==> item_below(#[trigger] out[i], c)
}

/// The no-passing law: one tick preserves the downstream-first order of a
/// chain's item list.  Processed front to back under the reservation
/// discipline, an item never ends the tick ahead of an item that started
/// ahead of it; every moved item is still well-formed and still carries its
/// own payload and width.
pub proof fn lemma_sim_preserves_order(
    segs: Seq<ConveyorSegment>,
    adv: int,
    connected: bool,
    items: Seq<BeltItem>,
    reserved: Seq<i64>,
)
    requires
        crate::belt::segments_wf(segs),
        1 <= segs.len() <= usize::MAX,
        forall|i: int| 0 <= i < items.len() ==> item_wf(#[trigger] items[i], segs),
        crate::belt::items_ordered(items),
        0 <= adv,
        reserved.len() == segs.len(),
        reserved_wf(reserved),
    ensures
        ({
            let r = sim_from(segs, adv, connected, items, reserved);
            &&& crate::belt::items_ordered(r.0)
            &&& forall|i: int| 0 <= i < r.0.len() ==> item_wf(#[trigger] r.0[i], segs)
            &&& forall|i: int|
                0 <= i < r.0.len() ==> (#[trigger] r.0[i]).item_entity == items[i].item_entity
                    && r.0[i].item_width == items[i].item_width
            &&& r.0.len() == items.len()
            &&& r.2.len() == items.len()
            &&& r.1.len() == reserved.len()
            &&& reserved_wf(r.1)
            &&& (items.len() > 0 ==> items_below(
                r.0,
                cap_of(segs, reserved, items[0].segment_index as int),
            ))
            &&& (items.len() > 0 ==> forall|t: int|
                items[0].segment_index as int <= t < segs.len() ==> lex_le(
                    cap_of(segs, #[trigger] r.1, t).0,
                    cap_of(segs, r.1, t).1,
                    cap_of(segs, reserved, t).0,
                    cap_of(segs, reserved, t).1,
                ))
        }),
    decreases items.len(),
{
    let r = sim_from(segs, adv, connected, items, reserved);
    if items.len() > 0 {
        let s0 = items[0].segment_index as int;
        lemma_step_props(segs, reserved, items[0], adv, connected);
        let st = step_item(segs, reserved, items[0], adv, connected);
        let tail = items.drop_first();
        assert(crate::belt::items_ordered(tail)) by {
            assert forall|i: int, j: int|
                0 <= i < j < tail.len() implies crate::belt::item_at_or_after(
                #[trigger] tail[i],
                #[trigger] tail[j],
            ) by {
                assert(tail[i] == items[i + 1] && tail[j] == items[j + 1]);
            }
        };
        assert(forall|i: int| 0 <= i < tail.len() ==> item_wf(#[trigger] tail[i], segs)) by {
            assert forall|i: int| 0 <= i < tail.len() implies item_wf(
                #[trigger] tail[i],
                segs,
            ) by {
                assert(tail[i] == items[i + 1]);
            }
        };
        lemma_sim_preserves_order(segs, adv, connected, tail, st.1);
        let rr = sim_from(segs, adv, connected, tail, st.1);
        assert(r.0 == seq![st.0] + rr.0 && r.1 == rr.1 && r.2 == seq![st.2] + rr.2);
        assert(r.0[0] == st.0);
        assert(forall|i: int| 1 <= i < r.0.len() ==> #[trigger] r.0[i] == rr.0[i - 1]);
        if tail.len() > 0 {
            let s1 = tail[0].segment_index as int;
            assert(crate::belt::item_at_or_after(items[0], items[1]));
            assert(tail[0] == items[1]);
            assert(s1 <= s0);
            lemma_cap_mono(segs, st.1, s1, s0);
            // every later item ends at or below the head's final spot
            assert forall|i: int| 1 <= i < r.0.len() implies crate::belt::item_at_or_after(
                st.0,
                #[trigger] r.0[i],
            ) by {
                assert(r.0[i] == rr.0[i - 1]);
                assert(item_below(rr.0[i - 1], cap_of(segs, st.1, s1)));
            }
            // their spots also respect the head's entry cap
            assert forall|i: int| 1 <= i < r.0.len() implies item_below(
                #[trigger] r.0[i],
                cap_of(segs, reserved, s0),
            ) by {
                assert(r.0[i] == rr.0[i - 1]);
                assert(item_below(rr.0[i - 1], cap_of(segs, st.1, s1)));
                assert(lex_le(
                    cap_of(segs, st.1, s0).0,
                    cap_of(segs, st.1, s0).1,
                    cap_of(segs, reserved, s0).0,
                    cap_of(segs, reserved, s0).1,
                ));
            }
        }
        assert(crate::belt::items_ordered(r.0)) by {
            assert forall|i: int, j: int|
                0 <= i < j < r.0.len() implies crate::belt::item_at_or_after(
                #[trigger] r.0[i],
                #[trigger] r.0[j],
            ) by {
                if i >= 1 {
                    assert(r.0[i] == rr.0[i - 1] && r.0[j] == rr.0[j - 1]);
                    assert(crate::belt::item_at_or_after(rr.0[i - 1], rr.0[j - 1]));
                } else {
                    assert(crate::belt::item_at_or_after(st.0, r.0[j]));
                }
            }
        };
        assert forall|i: int| 0 <= i < r.0.len() implies item_wf(#[trigger] r.0[i], segs) by {
            if i >= 1 {
                assert(r.0[i] == rr.0[i - 1]);
            }
        }
        assert forall|i: int|
            0 <= i < r.0.len() implies (#[trigger] r.0[i]).item_entity == items[i].item_entity
                && r.0[i].item_width == items[i].item_width by {
            if i >= 1 {
                assert(r.0[i] == rr.0[i - 1] && items[i] == tail[i - 1]);
            }
        }
        if tail.len() == 0 {
            assert(r.1 == st.1);
        }
    }
}

/// For `0 <= x <= adv * SCALE / len`, the distance `x * len / SCALE` never
/// exceeds the advance that produced it.
proof fn lemma_overflow_bound(x: int, len: int, adv: int)
    requires
        1 <= len,
        0 <= adv,
        0 <= x,
        x <= adv * SCALE / len,
    ensures
        x * len / (SCALE as int) <= adv,
{
    let q = adv * (SCALE as int) / len;
    vstd::arithmetic::div_mod::lemma_fundamental_div_mod(adv * (SCALE as int), len);
    vstd::arithmetic::div_mod::lemma_mod_bound(adv * (SCALE as int), len);
    assert(q * len <= adv * (SCALE as int)) by (nonlinear_arith)
        requires
            adv * (SCALE as int) == len * q + (adv * (SCALE as int)) % len,
            0 <= (adv * (SCALE as int)) % len,
    ;
    assert(x * len <= q * len) by (nonlinear_arith)
        requires
            0 <= x <= q,
            1 <= len,
    ;
    assert(0 <= x * len) by (nonlinear_arith)
        requires
            0 <= x,
            1 <= len,
    ;
    vstd::arithmetic::div_mod::lemma_div_is_ordered(x * len, adv * (SCALE as int), SCALE as int);
    vstd::arithmetic::div_mod::lemma_div_by_multiple(adv, SCALE as int);
}

/// A quotient by a positive denominator never exceeds its numerator.
proof fn lemma_quotient_at_most(a: int, d: int)
    requires
        0 <= a,
        1 <= d,
    ensures
        0 <= a / d <= a,
{
    vstd::arithmetic::div_mod::lemma_div_is_ordered_by_denominator(a, 1, d);
    vstd::arithmetic::div_mod::lemma_div_basics(a);
    vstd::arithmetic::div_mod::lemma_div_pos_is_pos(a, d);
}

/// One item's executable move; computes exactly `step_item`.
fn step_item_exec(
    segs: &Vec<ConveyorSegment>,
    reserved: &mut Vec<i64>,
    it: BeltItem,
    adv: i64,
    connected: bool,
) -> (r: (BeltItem, bool))
    requires
        crate::belt::segments_wf(segs@),
        segs@.len() >= 1,
        item_wf(it, segs@),
        0 <= adv <= MAX_ADVANCE,
        old(reserved)@.len() == segs@.len(),
        reserved_wf(old(reserved)@),
    ensures
        ({
            let spec_r = step_item(segs@, old(reserved)@, it, adv as int, connected);
            &&& r.0 == spec_r.0
            &&& final(reserved)@ == spec_r.1
            &&& r.1 == spec_r.2
        }),
        final(reserved)@.len() == old(reserved)@.len(),
        reserved_wf(final(reserved)@),
        item_wf(r.0, segs@),
        r.0.item_width == it.item_width,
{
    proof {
        broadcast use vstd::std_specs::vec::axiom_spec_len;

        assert(segs@.len() == vstd::std_specs::vec::spec_vec_len(segs));
        lemma_step_props(segs@, old(reserved)@, it, adv as int, connected);
    }
    let idx: usize = it.segment_index;
    proof {
        assert(seg_wf(segs@[idx as int]));
    }
    let len: i64 = segs[idx].length();
    let delta: i64 = if len == 0 {
        SCALE
    } else {
        proof {
            assert(0 <= adv * SCALE <= MAX_ADVANCE * SCALE) by (nonlinear_arith)
                requires
                    0 <= adv <= MAX_ADVANCE,
            ;
            lemma_quotient_at_most(adv * (SCALE as int), len as int);
        }
        mul_div(adv, SCALE, len)
    };
    proof {
        if len != 0 {
            lemma_quotient_at_most(adv * (SCALE as int), len as int);
            assert(adv * SCALE <= MAX_ADVANCE * SCALE) by (nonlinear_arith)
                requires
                    0 <= adv <= MAX_ADVANCE,
            ;
        }
        assert(delta == delta_progress(adv as int, len as int));
    }
    let cand: i64 = it.segment_progress + delta;
    let lim: i64 = reserved[idx];
    let m1: i64 = if cand <= lim {
        cand
    } else {
        lim
    };
    let p1: i64 = if m1 < 0 {
        0
    } else if m1 > SCALE {
        SCALE
    } else {
        m1
    };
    proof {
        assert(p1 as int == clamp01(min2(cand as int, old(reserved)@[idx as int] as int)));
    }
    let ns: usize = segs.len();
    let last_conn: bool = segs[ns - 1].is_connector;
    let lr: usize = if last_conn {
        proof {
            assert(ns >= 2) by {
                assert(!segs@[it.segment_index as int].is_connector);
            };
        }
        ns - 2
    } else {
        ns - 1
    };
    proof {
        assert(lr as int == last_real_index(segs@));
        lemma_item_at_most_last_real(segs@, it);
    }
    let wlen: i64 = it.item_width;
    if p1 == SCALE && idx < lr {
        proof {
            assert(seg_wf(segs@[idx as int + 1]));
        }
        let nlen: i64 = segs[idx + 1].length();
        let ov: i64 = if len == 0 {
            0
        } else {
            proof {
                lemma_overflow_bound(cand as int - SCALE, len as int, adv as int);
            }
            mul_div(cand - SCALE, len, SCALE)
        };
        proof {
            if len == 0 {
                assert((cand as int - SCALE) * (len as int) == 0) by (nonlinear_arith)
                    requires
                        len as int == 0,
                ;
                vstd::arithmetic::div_mod::lemma_div_basics(0);
                assert(ov as int == (cand as int - SCALE) * (len as int) / (SCALE as int));
            } else {
                lemma_overflow_bound(cand as int - SCALE, len as int, adv as int);
            }
            assert(0 <= ov <= MAX_ADVANCE);
        }
        let ovp: i64 = if nlen == 0 {
            SCALE
        } else {
            proof {
                assert(0 <= ov * SCALE <= MAX_ADVANCE * SCALE) by (nonlinear_arith)
                    requires
                        0 <= ov <= MAX_ADVANCE,
                ;
                lemma_quotient_at_most(ov as int * (SCALE as int), nlen as int);
            }
            mul_div(ov, SCALE, nlen)
        };
        if reserved[idx + 1] >= 0 {
            let lim2: i64 = reserved[idx + 1];
            let m2: i64 = if ovp <= lim2 {
                ovp
            } else {
                lim2
            };
            let p2: i64 = if m2 < 0 {
                0
            } else if m2 > SCALE {
                SCALE
            } else {
                m2
            };
            let wp2: i64 = if nlen == 0 {
                SCALE
            } else {
                proof {
                    lemma_width_progress_bounds(wlen as int, nlen as int);
                }
                mul_div(wlen, SCALE, nlen)
            };
            proof {
                lemma_width_progress_bounds(wlen as int, nlen as int);
            }
            let pos = segs[idx + 1].position_for_progress(p2);
            reserved.set(idx + 1, p2 - wp2);
            (
                BeltItem {
                    item_entity: it.item_entity,
                    position: pos,
                    segment_progress: p2,
                    segment_index: idx + 1,
                    item_width: it.item_width,
                },
                false,
            )
        } else {
            let wp1: i64 = if len == 0 {
                SCALE
            } else {
                proof {
                    lemma_width_progress_bounds(wlen as int, len as int);
                }
                mul_div(wlen, SCALE, len)
            };
            proof {
                lemma_width_progress_bounds(wlen as int, len as int);
            }
            let pos = segs[idx].position_for_progress(SCALE);
            reserved.set(idx, SCALE - wp1);
            (
                BeltItem {
                    item_entity: it.item_entity,
                    position: pos,
                    segment_progress: SCALE,
                    segment_index: idx,
                    item_width: it.item_width,
                },
                false,
            )
        }
    } else if p1 == SCALE && idx == lr && connected {
        let pin = segs[ns - 1].end_position();
        let wp1: i64 = if len == 0 {
            SCALE
        } else {
            proof {
                lemma_width_progress_bounds(wlen as int, len as int);
            }
            mul_div(wlen, SCALE, len)
        };
        proof {
            lemma_width_progress_bounds(wlen as int, len as int);
        }
        reserved.set(idx, SCALE - wp1);
        (
            BeltItem {
                item_entity: it.item_entity,
                position: pin,
                segment_progress: SCALE,
                segment_index: idx,
                item_width: it.item_width,
            },
            true,
        )
    } else {
        let wp1: i64 = if len == 0 {
            SCALE
        } else {
            proof {
                lemma_width_progress_bounds(wlen as int, len as int);
            }
            mul_div(wlen, SCALE, len)
        };
        proof {
            lemma_width_progress_bounds(wlen as int, len as int);
        }
        let pos = segs[idx].position_for_progress(p1);
        reserved.set(idx, p1 - wp1);
        (
            BeltItem {
                item_entity: it.item_entity,
                position: pos,
                segment_progress: p1,
                segment_index: idx,
                item_width: it.item_width,
            },
            false,
        )
    }
}

/// An item facing a fully available segment never loses ground in one
/// step: its final spot is lexicographically at or past its starting spot.
proof fn lemma_step_no_retreat(
    segs: Seq<ConveyorSegment>,
    reserved: Seq<i64>,
    it: BeltItem,
    adv: int,
    connected: bool,
)
    requires
        crate::belt::segments_wf(segs),
        1 <= segs.len() <= usize::MAX,
        item_wf(it, segs),
        0 <= adv,
        reserved.len() == segs.len(),
        reserved_wf(reserved),
        reserved[it.segment_index as int] == SCALE,
    ensures
        ({
            let r = step_item(segs, reserved, it, adv, connected);
            lex_le(
                it.segment_index as int,
                it.segment_progress as int,
                r.0.segment_index as int,
                r.0.segment_progress as int,
            )
        }),
{
    lemma_step_props(segs, reserved, it, adv, connected);
    let s = it.segment_index as int;
    let len = seg_len(segs[s]);
    assert(0 <= delta_progress(adv, len)) by {
        if len != 0 {
            vstd::arithmetic::div_mod::lemma_div_pos_is_pos(adv * SCALE, len);
            assert(0 <= adv * SCALE) by (nonlinear_arith)
                requires
                    0 <= adv,
            ;
        }
    };
}

/// The no-retreat half of the no-passing law: the item at the front of its
/// segment (none of the items processed before it share its segment) starts
/// the tick against untouched reservations, so it never ends the tick
/// behind where it started.
pub proof fn lemma_front_item_never_retreats(
    segs: Seq<ConveyorSegment>,
    adv: int,
    connected: bool,
    items: Seq<BeltItem>,
    reserved: Seq<i64>,
    k: int,
)
    requires
        crate::belt::segments_wf(segs),
        1 <= segs.len() <= usize::MAX,
        forall|i: int| 0 <= i < items.len() ==> item_wf(#[trigger] items[i], segs),
        crate::belt::items_ordered(items),
        0 <= adv,
        reserved.len() == segs.len(),
        reserved_wf(reserved),
        0 <= k < items.len(),
        reserved[items[k].segment_index as int] == SCALE,
        forall|j: int|
            0 <= j < k ==> (#[trigger] items[j]).segment_index > items[k].segment_index,
    ensures
        ({
            let out = sim_from(segs, adv, connected, items, reserved).0;
            lex_le(
                items[k].segment_index as int,
                items[k].segment_progress as int,
                out[k].segment_index as int,
                out[k].segment_progress as int,
            )
        }),
    decreases k,
{
    let st = step_item(segs, reserved, items[0], adv, connected);
    let tail = items.drop_first();
    let out = sim_from(segs, adv, connected, items, reserved).0;
    lemma_step_props(segs, reserved, items[0], adv, connected);
    lemma_sim_preserves_order(segs, adv, connected, items, reserved);
    if k == 0 {
        lemma_step_no_retreat(segs, reserved, items[0], adv, connected);
        assert(out[0] == st.0);
    } else {
        let s = items[k].segment_index as int;
        // the head rides a later segment, so its reservation writes land
        // past the front item's segment
        assert(items[0].segment_index > s);
        assert(st.1[s] == reserved[s]);
        assert(crate::belt::items_ordered(tail)) by {
            assert forall|i: int, j: int|
                0 <= i < j < tail.len() implies crate::belt::item_at_or_after(
                #[trigger] tail[i],
                #[trigger] tail[j],
            ) by {
                assert(tail[i] == items[i + 1] && tail[j] == items[j + 1]);
            }
        };
        assert(forall|i: int| 0 <= i < tail.len() ==> item_wf(#[trigger] tail[i], segs)) by {
            assert forall|i: int| 0 <= i < tail.len() implies item_wf(
                #[trigger] tail[i],
                segs,
            ) by {
                assert(tail[i] == items[i + 1]);
            }
        };
        assert(forall|j: int|
            0 <= j < k - 1 ==> (#[trigger] tail[j]).segment_index > tail[k - 1].segment_index) by {
            assert forall|j: int|
                0 <= j < k - 1 implies (#[trigger] tail[j]).segment_index > tail[k
                - 1].segment_index by {
                assert(tail[j] == items[j + 1] && tail[k - 1] == items[k]);
            }
        };
        lemma_front_item_never_retreats(segs, adv, connected, tail, st.1, k - 1);
        assert(out[k] == sim_from(segs, adv, connected, tail, st.1).0[k - 1]);
        assert(tail[k - 1] == items[k]);
    }
}

/// The items whose hand-off flag is set, in list order.
pub open spec fn handoff_list(out: Seq<BeltItem>, flags: Seq<bool>) -> Seq<BeltItem>
    decreases out.len(),
{
    if out.len() == 0 || flags.len() == 0 {
        Seq::<BeltItem>::empty()
    } else if flags.last() {
        handoff_list(out.drop_last(), flags.drop_last()).push(out.last())
    } else {
        handoff_list(out.drop_last(), flags.drop_last())
    }
}

impl ConveyorBelt {
    /// One simulation tick of this chain: advances every item, in the
    /// maintained front-to-back order, by `belt_speed` over the elapsed
    /// time, under the no-passing reservation rules.  Returns the items
    /// that reached the chain's end and asked to be handed off into the
    /// connected chain; they stay in this chain's list, pinned at the end,
    /// until a transfer succeeds.
    pub fn advance_items(&mut self, dt_micros: i64) -> (r: Vec<BeltItem>)
        requires
            belt_inv(*old(self)),
            0 <= dt_micros <= MAX_TICK_MICROS,
        ensures
            belt_inv(*final(self)),
            final(self).belt_pieces == old(self).belt_pieces,
            final(self).segments == old(self).segments,
            final(self).belt_speed == old(self).belt_speed,
            final(self).connected_conveyor_belt == old(self).connected_conveyor_belt,
            ({
                let adv = old(self).belt_speed * dt_micros / (SCALE as int);
                let sim = sim_from(
                    old(self).segments@,
                    adv,
                    old(self).connected_conveyor_belt.is_some(),
                    old(self).items@,
                    init_reserved(old(self).segments@.len() as int),
                );
                &&& final(self).items@ == sim.0
                &&& r@ == handoff_list(sim.0, sim.2)
            }),
            forall|i: int|
                0 <= i < r@.len() ==> item_wf(#[trigger] r@[i], final(self).segments@),
    {
        proof {
            assert(0 <= self.belt_speed * dt_micros <= MAX_SPEED * MAX_TICK_MICROS)
                by (nonlinear_arith)
                requires
                    0 <= self.belt_speed <= MAX_SPEED,
                    0 <= dt_micros <= MAX_TICK_MICROS,
            ;
            lemma_quotient_at_most(self.belt_speed * dt_micros, SCALE as int);
        }
        let adv: i64 = mul_div(self.belt_speed, dt_micros, SCALE);
        let connected: bool = self.connected_conveyor_belt.is_some();
        let n: usize = self.items.len();
        let ns: usize = self.segments.len();
        let ghost items0 = self.items@;
        let ghost target = sim_from(
            self.segments@,
            adv as int,
            connected,
            items0,
            init_reserved(ns as int),
        );
        if n == 0 {
            return Vec::new();
        }
        proof {
            assert(item_wf(items0[0], self.segments@));
            assert(ns >= 1);
        }
        let mut reserved: Vec<i64> = Vec::new();
        let mut t: usize = 0;
        while t < ns
            invariant
                0 <= t <= ns,
                reserved@.len() == t,
                forall|i: int| 0 <= i < t ==> #[trigger] reserved@[i] == SCALE,
            decreases ns - t,
        {
            reserved.push(SCALE);
            t += 1;
        }
        proof {
            assert(reserved@ =~= init_reserved(ns as int));
        }
        let mut out: Vec<BeltItem> = Vec::new();
        let mut handoffs: Vec<BeltItem> = Vec::new();
        let ghost mut gflags: Seq<bool> = Seq::<bool>::empty();
        proof {
            assert(items0.skip(0) =~= items0);
            assert(Seq::<BeltItem>::empty() + target.0 =~= target.0);
            assert(Seq::<bool>::empty() + target.2 =~= target.2);
        }
        let mut k: usize = 0;
        while k < n
            invariant
                0 <= k <= n,
                n == items0.len(),
                belt_inv(*self),
                self.items@ == items0,
                ns == self.segments@.len(),
                1 <= ns,
                0 <= adv <= MAX_ADVANCE,
                connected == self.connected_conveyor_belt.is_some(),
                reserved@.len() == ns,
                reserved_wf(reserved@),
                out@.len() == k,
                gflags.len() == k,
                target == sim_from(
                    self.segments@,
                    adv as int,
                    connected,
                    items0,
                    init_reserved(ns as int),
                ),
                out@ + sim_from(
                    self.segments@,
                    adv as int,
                    connected,
                    items0.skip(k as int),
                    reserved@,
                ).0 == target.0,
                sim_from(
                    self.segments@,
                    adv as int,
                    connected,
                    items0.skip(k as int),
                    reserved@,
                ).1 == target.1,
                gflags + sim_from(
                    self.segments@,
                    adv as int,
                    connected,
                    items0.skip(k as int),
                    reserved@,
                ).2 == target.2,
                handoffs@ == handoff_list(out@, gflags),
                forall|i: int|
                    0 <= i < handoffs@.len() ==> item_wf(#[trigger] handoffs@[i], self.segments@),
            decreases n - k,
        {
            let it: BeltItem = self.items[k];
            let ghost pre_reserved = reserved@;
            proof {
                assert(items0.skip(k as int)[0] == items0[k as int]);
                assert(item_wf(it, self.segments@));
            }
            let sr: (BeltItem, bool) = step_item_exec(
                &self.segments,
                &mut reserved,
                it,
                adv,
                connected,
            );
            let ghost old_out = out@;
            let ghost old_flags = gflags;
            out.push(sr.0);
            proof {
                gflags = gflags.push(sr.1);
            }
            if sr.1 {
                handoffs.push(sr.0);
            }
            proof {
                let suffix = items0.skip(k as int);
                assert(suffix.drop_first() =~= items0.skip(k as int + 1));
                let st = step_item(self.segments@, pre_reserved, items0[k as int], adv as int, connected);
                assert(st.0 == sr.0 && st.1 == reserved@ && st.2 == sr.1);
                let rest = sim_from(
                    self.segments@,
                    adv as int,
                    connected,
                    items0.skip(k as int + 1),
                    reserved@,
                );
                assert(sim_from(self.segments@, adv as int, connected, suffix, pre_reserved).0
                    == seq![st.0] + rest.0);
                assert(out@ + rest.0 =~= old_out + (seq![st.0] + rest.0));
                assert(gflags + rest.2 =~= old_flags + (seq![st.2] + rest.2));
                assert(out@.drop_last() =~= old_out && gflags.drop_last() =~= old_flags);
                assert(handoffs@ == handoff_list(out@, gflags));
            }
            k += 1;
        }
        proof {
            assert(items0.skip(n as int) =~= Seq::<BeltItem>::empty());
            assert(out@ =~= target.0);
            assert(gflags =~= target.2);
            broadcast use vstd::std_specs::vec::axiom_spec_len;

            assert(self.segments@.len() == vstd::std_specs::vec::spec_vec_len(&self.segments));
            lemma_sim_preserves_order(
                self.segments@,
                adv as int,
                connected,
                items0,
                init_reserved(ns as int),
            );
        }
        self.items = out;
        handoffs
    }
}

} // verus!
