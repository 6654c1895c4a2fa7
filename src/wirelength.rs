//! Half-perimeter wirelength of a placed floorplan.
//!
//! Pin positions are module centres, which lie on half units; every length
//! here is therefore kept doubled so that it stays an integer.

use vstd::prelude::*;
use crate::geometry::{Rectangle, Net, BoundingBox, Floorplan, Int, EXTENT_LIMIT};

verus! {

/// Twice the centre of module `id` along x (`horizontal`) or y.
pub open spec fn center2(plan: Seq<(Int, Int, Rectangle)>, id: int, horizontal: bool) -> int {
    if horizontal {
        2 * plan[id].0 + plan[id].2.width
    } else {
        2 * plan[id].1 + plan[id].2.height
    }
}

/// The largest doubled centre among the first `k` pins.
pub open spec fn pin_max(
    plan: Seq<(Int, Int, Rectangle)>,
    pins: Seq<usize>,
    k: int,
    horizontal: bool,
) -> int
    decreases k,
{
    if k <= 1 {
        center2(plan, pins[0] as int, horizontal)
    } else {
        let m = pin_max(plan, pins, k - 1, horizontal);
        let c = center2(plan, pins[k - 1] as int, horizontal);
        if c > m { c } else { m }
    }
}

/// The smallest doubled centre among the first `k` pins.
pub open spec fn pin_min(
    plan: Seq<(Int, Int, Rectangle)>,
    pins: Seq<usize>,
    k: int,
    horizontal: bool,
) -> int
    decreases k,
{
    if k <= 1 {
        center2(plan, pins[0] as int, horizontal)
    } else {
        let m = pin_min(plan, pins, k - 1, horizontal);
        let c = center2(plan, pins[k - 1] as int, horizontal);
        if c < m { c } else { m }
    }
}

/// Twice the half perimeter of the box around the centres of a net's pins;
/// a net without pins has none.
pub open spec fn net_wire2(plan: Seq<(Int, Int, Rectangle)>, pins: Seq<usize>) -> int {
    if pins.len() == 0 {
        0
    } else {
        let n = pins.len() as int;
        (pin_max(plan, pins, n, true) - pin_min(plan, pins, n, true)) + (pin_max(plan, pins, n, false)
            - pin_min(plan, pins, n, false))
    }
}

/// The doubled wirelength of the first `k` nets.
pub open spec fn total_wire2(plan: Seq<(Int, Int, Rectangle)>, nets: Seq<Net>, k: int) -> int
    decreases k,
{
    if k <= 0 {
        0
    } else {
        total_wire2(plan, nets, k - 1) + net_wire2(plan, nets[k - 1].pins@)
    }
}

/// Every module of the plan ends within the extent limit on both axes.
pub open spec fn plan_within_limit(plan: Seq<(Int, Int, Rectangle)>) -> bool {
    forall|i: int|
        0 <= i < plan.len() ==> #[trigger] plan[i].0 + plan[i].2.width <= EXTENT_LIMIT && plan[i].1
            + plan[i].2.height <= EXTENT_LIMIT
}

/// Every pin of every net names a module of the plan.
pub open spec fn pins_in_range(nets: Seq<Net>, n: int) -> bool {
    forall|m: int, k: int|
        0 <= m < nets.len() && 0 <= k < nets[m].pins@.len() ==> #[trigger] nets[m].pins@[k] < n
}

proof fn lemma_pin_bounds(plan: Seq<(Int, Int, Rectangle)>, pins: Seq<usize>, k: int, horizontal: bool)
    requires
        1 <= k <= pins.len(),
        plan_within_limit(plan),
        forall|j: int| 0 <= j < pins.len() ==> #[trigger] pins[j] < plan.len(),
    ensures
        0 <= pin_min(plan, pins, k, horizontal) <= pin_max(plan, pins, k, horizontal) <= 2 * EXTENT_LIMIT,
    decreases k,
{
    let c = pins[k - 1] as int;
    assert(plan_within_limit(plan));
    assert(plan[c].0 + plan[c].2.width <= EXTENT_LIMIT);
    if k > 1 {
        lemma_pin_bounds(plan, pins, k - 1, horizontal);
    }
}

/// The half-perimeter wirelength of `plan` under `nets`, doubled.
pub fn compute_wirelength(plan: &Floorplan, nets: &Vec<Net>) -> (r: u128)
    requires
        plan_within_limit(plan@),
        pins_in_range(nets@, plan@.len() as int),
    ensures
        r == total_wire2(plan@, nets@, nets@.len() as int),
{
    let mut total: u128 = 0;
    let mut m: usize = 0;
    while m < nets.len()
        invariant
            0 <= m <= nets@.len(),
            plan_within_limit(plan@),
            pins_in_range(nets@, plan@.len() as int),
            total == total_wire2(plan@, nets@, m as int),
            total <= m * (4 * EXTENT_LIMIT),
        decreases nets@.len() - m,
    {
        let pins = &nets[m].pins;
        let ghost ps = pins@;
        assert forall|j: int| 0 <= j < ps.len() implies #[trigger] ps[j] < plan@.len() by {
            assert(nets@[m as int].pins@[j] < plan@.len());
        }
        let mut w: u128 = 0;
        if pins.len() > 0 {
            let (x0, y0) = center_of(plan, pins[0]);
            let mut bbox = BoundingBox::new(x0, x0, y0, y0);
            let mut k: usize = 1;
            while k < pins.len()
                invariant
                    1 <= k <= ps.len(),
                    ps == pins@,
                    plan_within_limit(plan@),
                    forall|j: int| 0 <= j < ps.len() ==> #[trigger] ps[j] < plan@.len(),
                    bbox.min_x == pin_min(plan@, ps, k as int, true),
                    bbox.max_x == pin_max(plan@, ps, k as int, true),
                    bbox.min_y == pin_min(plan@, ps, k as int, false),
                    bbox.max_y == pin_max(plan@, ps, k as int, false),
                decreases ps.len() - k,
            {
                let (x, y) = center_of(plan, pins[k]);
                bbox.extend_point(x, y);
                k += 1;
            }
            proof {
                lemma_pin_bounds(plan@, ps, ps.len() as int, true);
                lemma_pin_bounds(plan@, ps, ps.len() as int, false);
            }
            w = bbox.get_width() as u128 + bbox.get_height() as u128;
        }
        assert(w <= 4 * EXTENT_LIMIT);
        assert(total + w <= (m + 1) * (4 * EXTENT_LIMIT)) by (nonlinear_arith)
            requires
                total <= m * (4 * EXTENT_LIMIT),
                w <= 4 * EXTENT_LIMIT,
        ;
        assert((m + 1) * (4 * EXTENT_LIMIT) <= u128::MAX) by (nonlinear_arith)
            requires
                m < usize::MAX,
        ;
        total = total + w;
        m += 1;
    }
    total
}

/// Twice the centre of module `id`.
fn center_of(plan: &Floorplan, id: usize) -> (r: (Int, Int))
    requires
        id < plan@.len(),
        plan_within_limit(plan@),
    ensures
        r.0 == center2(plan@, id as int, true),
        r.1 == center2(plan@, id as int, false),
{
    let (x, y, rect) = plan[id];
    assert(plan@[id as int].0 + plan@[id as int].2.width <= EXTENT_LIMIT);
    assert(plan@[id as int].1 + plan@[id as int].2.height <= EXTENT_LIMIT);
    assert(x == plan@[id as int].0 && y == plan@[id as int].1 && rect == plan@[id as int].2);
    rect.center(x, y)
}


/// The smallest canvas, anchored at the origin, that holds every module of
/// the plan.
pub fn canvas_size(plan: &Floorplan) -> (r: (Int, Int))
    requires
        plan_within_limit(plan@),
    ensures
        forall|i: int| 0 <= i < plan@.len() ==> #[trigger] plan@[i].0 + plan@[i].2.width <= r.0 && plan@[i].1
            + plan@[i].2.height <= r.1,
        r.0 == 0 || exists|i: int| 0 <= i < plan@.len() && #[trigger] plan@[i].0 + plan@[i].2.width == r.0,
        r.1 == 0 || exists|i: int| 0 <= i < plan@.len() && #[trigger] plan@[i].1 + plan@[i].2.height == r.1,
{
    let mut mx: Int = 0;
    let mut my: Int = 0;
    let mut i: usize = 0;
    while i < plan.len()
        invariant
            i <= plan@.len(),
            plan_within_limit(plan@),
            forall|k: int| 0 <= k < i ==> #[trigger] plan@[k].0 + plan@[k].2.width <= mx && plan@[k].1 + plan@[k].2.height <= my,
            mx == 0 || exists|k: int| 0 <= k < i && #[trigger] plan@[k].0 + plan@[k].2.width == mx,
            my == 0 || exists|k: int| 0 <= k < i && #[trigger] plan@[k].1 + plan@[k].2.height == my,
        decreases plan@.len() - i,
    {
        let (x, y, r) = plan[i];
        assert(plan@[i as int].0 + plan@[i as int].2.width <= EXTENT_LIMIT);
        assert(plan@[i as int].1 + plan@[i as int].2.height <= EXTENT_LIMIT);
        if x + r.width > mx {
            mx = x + r.width;
        }
        if y + r.height > my {
            my = y + r.height;
        }
        i += 1;
    }
    (mx, my)
}

} // verus!
