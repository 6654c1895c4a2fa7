//! The sequence-pair encoding: two permutations of module ids and a
//! rotation per module, from which a packing is derived.

use vstd::prelude::*;
use crate::geometry::{Rectangle, Net, Floorplan, Int, EXTENT_LIMIT, transpose_spec};
use crate::wirelength::{compute_wirelength, total_wire2, plan_within_limit, pins_in_range};
use crate::search::{Mutation, Solution};
use crate::rng::random_below;

verus! {

/// `seq` is a permutation of `0..n` and `idx` gives the position of each id
/// in it.
pub open spec fn perm_with_index(seq: Seq<usize>, idx: Seq<usize>, n: int) -> bool {
    &&& seq.len() == n
    &&& idx.len() == n
    &&& forall|k: int| 0 <= k < n ==> #[trigger] seq[k] < n && idx[seq[k] as int] == k
    &&& forall|id: int| 0 <= id < n ==> #[trigger] idx[id] < n && seq[idx[id] as int] == id
}

/// Position of `id` in the other sequence, read backwards when `reversed`.
pub open spec fn rank(other_idx: Seq<usize>, reversed: bool, id: int) -> int {
    if reversed {
        other_idx.len() - 1 - other_idx[id]
    } else {
        other_idx[id] as int
    }
}

/// `j` comes before `i` in the processing order and in the ranking.
pub open spec fn precedes(order_idx: Seq<usize>, other_idx: Seq<usize>, reversed: bool, j: int, i: int) -> bool {
    order_idx[j] < order_idx[i] && rank(other_idx, reversed, j) < rank(other_idx, reversed, i)
}

/// Sum of `ext` over ids below `m`.
pub open spec fn ext_sum(ext: Seq<Int>, m: int) -> int
    decreases m,
{
    if m <= 0 {
        0
    } else {
        ext_sum(ext, m - 1) + ext[m - 1]
    }
}

/// Sum of `ext` over the ids below `m` among the first `k` of the order.
pub open spec fn ext_prefix_sum(ext: Seq<Int>, order_idx: Seq<usize>, k: int, m: int) -> int
    decreases m,
{
    if m <= 0 {
        0
    } else {
        ext_prefix_sum(ext, order_idx, k, m - 1) + if order_idx[m - 1] < k {
            ext[m - 1] as int
        } else {
            0
        }
    }
}

/// The packing rule along one axis: each module starts where the last of the
/// modules that precede it ends, or at zero when none does.
pub open spec fn packed(
    coord: Seq<Int>,
    ext: Seq<Int>,
    order_idx: Seq<usize>,
    other_idx: Seq<usize>,
    reversed: bool,
) -> bool {
    let n = coord.len() as int;
    &&& forall|i: int, j: int|
        0 <= i < n && 0 <= j < n && precedes(order_idx, other_idx, reversed, j, i) ==> coord[j]
            + ext[j] <= #[trigger] coord[i] + 0 * #[trigger] coord[j]
    &&& forall|i: int|
        0 <= i < n ==> #[trigger] coord[i] == 0 || exists|j: int|
            0 <= j < n && precedes(order_idx, other_idx, reversed, j, i) && coord[j] + ext[j]
                == coord[i]
}

proof fn lemma_prefix_sum_step(ext: Seq<Int>, order: Seq<usize>, order_idx: Seq<usize>, n: int, k: int, m: int)
    requires
        perm_with_index(order, order_idx, n),
        0 <= k < n,
        0 <= m <= n,
        ext.len() == n,
    ensures
        ext_prefix_sum(ext, order_idx, k + 1, m) == ext_prefix_sum(ext, order_idx, k, m) + if order[k] < m {
            ext[order[k] as int] as int
        } else {
            0
        },
    decreases m,
{
    if m > 0 {
        lemma_prefix_sum_step(ext, order, order_idx, n, k, m - 1);
        let id = m - 1;
        assert(order_idx[id] < n);
        assert(order[k] < n && order_idx[order[k] as int] == k);
        if order_idx[id] == k {
            assert(order[order_idx[id] as int] == id);
        }
    }
}

proof fn lemma_prefix_sum_bound(ext: Seq<Int>, order_idx: Seq<usize>, k: int, m: int)
    requires
        0 <= m <= ext.len(),
    ensures
        0 <= ext_prefix_sum(ext, order_idx, k, m) <= ext_sum(ext, m),
    decreases m,
{
    if m > 0 {
        lemma_prefix_sum_bound(ext, order_idx, k, m - 1);
    }
}

/// Packs the modules along one axis, in the order `order`, each against the
/// ones already placed that precede it in the other ranking.
#[verifier::spinoff_prover]
fn pack(
    order: &Vec<usize>,
    order_idx: &Vec<usize>,
    other: &Vec<usize>,
    other_idx: &Vec<usize>,
    reversed: bool,
    ext: &Vec<Int>,
) -> (coord: Vec<Int>)
    requires
        perm_with_index(order@, order_idx@, ext@.len() as int),
        perm_with_index(other@, other_idx@, ext@.len() as int),
        ext_sum(ext@, ext@.len() as int) <= EXTENT_LIMIT,
    ensures
        coord@.len() == ext@.len(),
        packed(coord@, ext@, order_idx@, other_idx@, reversed),
        forall|i: int| 0 <= i < coord@.len() ==> #[trigger] coord@[i] + ext@[i] <= ext_sum(ext@, ext@.len() as int),
{
    let n = ext.len();
    let ghost oi = order_idx@;
    let ghost ri = other_idx@;
    let ghost e = ext@;
    let mut coord: Vec<Int> = Vec::new();
    let mut lv: Vec<Int> = Vec::new();
    let mut z: usize = 0;
    while z < n
        invariant
            z <= n,
            coord@.len() == z,
            lv@.len() == z,
            forall|r: int| 0 <= r < z ==> coord@[r] == 0 && lv@[r] == 0,
        decreases n - z,
    {
        coord.push(0);
        lv.push(0);
        z += 1;
    }
    assert forall|a: int, b: int| 0 <= a < n && 0 <= b < n && a != b implies rank(ri, reversed, a) != rank(ri, reversed, b) by {
        assert(other@[ri[a] as int] == a);
        assert(other@[ri[b] as int] == b);
    }
    proof {
        lemma_prefix_sum_bound(e, oi, 0, n as int);
    }
    let mut k: usize = 0;
    while k < n
        invariant
            n == e.len(),
            oi == order_idx@,
            ri == other_idx@,
            e == ext@,
            perm_with_index(order@, oi, n as int),
            perm_with_index(other@, ri, n as int),
            ext_sum(e, n as int) <= EXTENT_LIMIT,
            forall|a: int, b: int| 0 <= a < n && 0 <= b < n && a != b ==> rank(ri, reversed, a) != rank(ri, reversed, b),
            0 <= k <= n,
            coord@.len() == n,
            lv@.len() == n,
            forall|p: int, q: int| 0 <= p <= q < n ==> lv@[p] <= lv@[q],
            forall|j: int, p: int|
                0 <= j < n && 0 <= p < n && oi[j] < k && rank(ri, reversed, j) <= p ==> coord@[j] + e[j]
                    <= #[trigger] lv@[p] + 0 * #[trigger] coord@[j],
            forall|p: int|
                0 <= p < n ==> #[trigger] lv@[p] == 0 || exists|j: int|
                    0 <= j < n && oi[j] < k && rank(ri, reversed, j) <= p && lv@[p] == coord@[j] + e[j],
            forall|i: int, j: int|
                0 <= i < n && 0 <= j < n && oi[i] < k && precedes(oi, ri, reversed, j, i) ==> coord@[j]
                    + e[j] <= #[trigger] coord@[i] + 0 * #[trigger] coord@[j],
            forall|i: int|
                0 <= i < n && oi[i] < k ==> #[trigger] coord@[i] == 0 || exists|j: int|
                    0 <= j < n && precedes(oi, ri, reversed, j, i) && coord@[j] + e[j] == coord@[i],
            forall|i: int| 0 <= i < n && oi[i] >= k ==> #[trigger] coord@[i] == 0,
            forall|p: int| 0 <= p < n ==> #[trigger] lv@[p] <= ext_prefix_sum(e, oi, k as int, n as int),
            forall|j: int|
                0 <= j < n && oi[j] < k ==> #[trigger] coord@[j] + e[j] <= ext_prefix_sum(e, oi, k as int, n as int),
            ext_prefix_sum(e, oi, k as int, n as int) <= ext_sum(e, n as int),
        decreases n - k,
    {
        let id = order[k];
        let p: usize = if reversed { n - 1 - other_idx[id] } else { other_idx[id] };
        assert(p == rank(ri, reversed, id as int));
        assert(oi[id as int] == k);
        let l = lv[p];
        let ghost old_lv = lv@;
        let ghost old_coord = coord@;
        coord.set(id, l);
        proof {
            lemma_prefix_sum_step(e, order@, oi, n as int, k as int, n as int);
            lemma_prefix_sum_bound(e, oi, k as int + 1, n as int);
        }
        let t = l + ext[id];
        let mut q: usize = p;
        while q < n && t > lv[q]
            invariant
                n == lv@.len(),
                p <= q <= n,
                old_lv.len() == n,
                forall|r: int| p <= r < q ==> #[trigger] lv@[r] == t && old_lv[r] < t,
                forall|r: int| 0 <= r < n && !(p <= r < q) ==> #[trigger] lv@[r] == old_lv[r],
            decreases n - q,
        {
            assert(lv@[q as int] == old_lv[q as int]);
            lv.set(q, t);
            q += 1;
        }
        assert forall|r1: int, r2: int| 0 <= r1 <= r2 < n implies lv@[r1] <= lv@[r2] by {
            if r1 < p {
                assert(old_lv[r1] <= old_lv[p as int]);
                if q < n {
                    assert(old_lv[p as int] <= old_lv[q as int]);
                }
            }
            if p <= r1 < q && q <= r2 {
                assert(old_lv[q as int] <= old_lv[r2]);
            }
        }
        assert forall|j: int, r: int|
            0 <= j < n && 0 <= r < n && oi[j] < k + 1 && rank(ri, reversed, j) <= r implies coord@[j] + e[j]
                <= #[trigger] lv@[r] + 0 * #[trigger] coord@[j] by {
            if j == id {
                if r >= q {
                    assert(old_lv[q as int] <= old_lv[r]);
                }
            } else {
                assert(coord@[j] == old_coord[j]);
                assert(old_coord[j] + e[j] <= old_lv[r] + 0 * old_coord[j]);
            }
        }
        assert forall|r: int| 0 <= r < n implies #[trigger] lv@[r] == 0 || exists|j: int|
            0 <= j < n && oi[j] < k + 1 && rank(ri, reversed, j) <= r && lv@[r] == coord@[j] + e[j] by {
            if p <= r < q {
                assert(coord@[id as int] == l);
            } else if old_lv[r] != 0 {
                let j = choose|j: int|
                    0 <= j < n && oi[j] < k && rank(ri, reversed, j) <= r && old_lv[r] == old_coord[j] + e[j];
                assert(coord@[j] == old_coord[j]);
            }
        }
        assert forall|i: int, j: int|
            0 <= i < n && 0 <= j < n && oi[i] < k + 1 && precedes(oi, ri, reversed, j, i) implies coord@[j]
                + e[j] <= #[trigger] coord@[i] + 0 * #[trigger] coord@[j] by {
            if i == id {
                assert(old_coord[j] + e[j] <= old_lv[p as int] + 0 * old_coord[j]);
            } else {
                assert(old_coord[j] + e[j] <= old_coord[i] + 0 * old_coord[j]);
            }
        }
        assert forall|i: int|
            0 <= i < n && oi[i] < k + 1 implies #[trigger] coord@[i] == 0 || exists|j: int|
                0 <= j < n && precedes(oi, ri, reversed, j, i) && coord@[j] + e[j] == coord@[i] by {
            if i == id {
                if l != 0 {
                    assert(old_lv[p as int] == l);
                    let j = choose|j: int|
                        0 <= j < n && oi[j] < k && rank(ri, reversed, j) <= p && old_lv[p as int] == old_coord[j] + e[j];
                    assert(j != id);
                    assert(coord@[j] == old_coord[j]);
                    assert(precedes(oi, ri, reversed, j, i));
                }
            } else if old_coord[i] != 0 {
                let j = choose|j: int| 0 <= j < n && precedes(oi, ri, reversed, j, i) && old_coord[j] + e[j] == old_coord[i];
                assert(coord@[j] == old_coord[j]);
            }
        }
        k += 1;
    }
    assert forall|i: int, j: int|
        0 <= i < n && 0 <= j < n && precedes(oi, ri, reversed, j, i) implies coord@[j]
            + e[j] <= #[trigger] coord@[i] + 0 * #[trigger] coord@[j] by {
        assert(oi[i] < n);
    }
    assert forall|i: int|
        0 <= i < n implies #[trigger] coord@[i] == 0 || exists|j: int|
            0 <= j < n && precedes(oi, ri, reversed, j, i) && coord@[j] + e[j] == coord@[i] by {
        assert(oi[i] < n);
    }
    assert forall|i: int| 0 <= i < n implies #[trigger] coord@[i] + e[i] <= ext_sum(e, n as int) by {
        assert(oi[i] < n);
    }
    coord
}

} // verus!

verus! {

/// Sum of `width + height` over the first `m` modules.
pub open spec fn extent_total(ms: Seq<Rectangle>, m: int) -> int
    decreases m,
{
    if m <= 0 {
        0
    } else {
        extent_total(ms, m - 1) + ms[m - 1].width + ms[m - 1].height
    }
}

pub open spec fn widths(ms: Seq<Rectangle>) -> Seq<Int> {
    Seq::new(ms.len(), |i: int| ms[i].width)
}

pub open spec fn heights(ms: Seq<Rectangle>) -> Seq<Int> {
    Seq::new(ms.len(), |i: int| ms[i].height)
}

pub open spec fn xs_of(pl: Seq<(Int, Int, Rectangle)>) -> Seq<Int> {
    Seq::new(pl.len(), |i: int| pl[i].0)
}

pub open spec fn ys_of(pl: Seq<(Int, Int, Rectangle)>) -> Seq<Int> {
    Seq::new(pl.len(), |i: int| pl[i].1)
}

proof fn lemma_extent_split(ms: Seq<Rectangle>, m: int)
    requires
        0 <= m <= ms.len(),
    ensures
        ext_sum(widths(ms), m) + ext_sum(heights(ms), m) == extent_total(ms, m),
        ext_sum(widths(ms), m) >= 0,
        ext_sum(heights(ms), m) >= 0,
    decreases m,
{
    if m > 0 {
        lemma_extent_split(ms, m - 1);
    }
}

proof fn lemma_extent_rotate(ms: Seq<Rectangle>, a: int, m: int)
    requires
        0 <= a < ms.len(),
        0 <= m <= ms.len(),
    ensures
        extent_total(ms.update(a, transpose_spec(ms[a])), m) == extent_total(ms, m),
    decreases m,
{
    if m > 0 {
        lemma_extent_rotate(ms, a, m - 1);
    }
}

/// A move of the sequence pair.
#[derive(Debug, Clone, Copy, PartialEq, Eq, Structural)]
pub enum SPMoveType {
    /// Turns the module with this id by a quarter.
    RotateModule(usize),
    /// Swaps two positions of the x-sequence.
    SwapLeftSide(usize, usize),
    /// Swaps two positions of the y-sequence.
    SwapRightSide(usize, usize),
    /// Swaps two positions of the x-sequence and two of the y-sequence.
    SwapBothSides(usize, usize, usize, usize),
}

/// The x-sequence, the y-sequence, and each module's rectangle as rotated.
pub type SequencePairSolution = (Vec<usize>, Vec<usize>, Vec<Rectangle>);

/// A floorplan encoded as a sequence pair, with its packing and costs kept
/// up to date.
#[derive(Debug)]
pub struct SequencePair {
    pub modules: Vec<Rectangle>,
    pub nets: Vec<Net>,
    pub x_sequence: Vec<usize>,
    pub y_sequence: Vec<usize>,
    /// The position of each id in the x-sequence.
    pub index_x: Vec<usize>,
    /// The position of each id in the y-sequence.
    pub index_y: Vec<usize>,
    pub placement: Floorplan,
    pub current_area: Int,
    /// Twice the half-perimeter wirelength of the placement.
    pub current_wire: u128,
    pub bounding_box: Rectangle,
}

/// `swap(s, a, b)`: `s` with the entries at `a` and `b` exchanged.
pub open spec fn swap_spec(s: Seq<usize>, a: int, b: int) -> Seq<usize> {
    s.update(a, s[b]).update(b, s[a])
}

/// `j` is left of `i`: it comes first in both sequences.
pub open spec fn left_of(ix: Seq<usize>, iy: Seq<usize>, j: int, i: int) -> bool {
    ix[j] < ix[i] && iy[j] < iy[i]
}

/// `j` is below `i`: it comes later in the x-sequence and first in the
/// y-sequence.
pub open spec fn below(ix: Seq<usize>, iy: Seq<usize>, j: int, i: int) -> bool {
    ix[j] > ix[i] && iy[j] < iy[i]
}

/// The two placed rectangles share no interior point.
pub open spec fn disjoint(a: (Int, Int, Rectangle), b: (Int, Int, Rectangle)) -> bool {
    a.0 + a.2.width <= b.0 || b.0 + b.2.width <= a.0 || a.1 + a.2.height <= b.1 || b.1 + b.2.height
        <= a.1
}

impl SequencePair {
    pub open spec fn n(&self) -> int {
        self.modules@.len() as int
    }

    /// The sequences are permutations with matching position tables, the
    /// modules fit the extent limit, and every pin names a module.
    pub open spec fn wf(&self) -> bool {
        let n = self.n();
        &&& n >= 1
        &&& perm_with_index(self.x_sequence@, self.index_x@, n)
        &&& perm_with_index(self.y_sequence@, self.index_y@, n)
        &&& self.placement@.len() == n
        &&& extent_total(self.modules@, n) <= EXTENT_LIMIT
        &&& pins_in_range(self.nets@, n)
    }

    /// The placement is the packing of the current sequences and rotations,
    /// and the bounding box encloses it tightly.
    pub open spec fn placed(&self) -> bool {
        let n = self.n();
        let pl = self.placement@;
        let ms = self.modules@;
        &&& packed(xs_of(pl), widths(ms), self.index_x@, self.index_y@, false)
        &&& packed(ys_of(pl), heights(ms), self.index_y@, self.index_x@, true)
        &&& forall|i: int| 0 <= i < n ==> (#[trigger] pl[i]).2 == ms[i]
        &&& plan_within_limit(pl)
        &&& forall|i: int| 0 <= i < n ==> #[trigger] pl[i].0 + pl[i].2.width <= self.bounding_box.width
        &&& exists|i: int| 0 <= i < n && #[trigger] pl[i].0 + pl[i].2.width == self.bounding_box.width
        &&& forall|i: int| 0 <= i < n ==> #[trigger] pl[i].1 + pl[i].2.height <= self.bounding_box.height
        &&& exists|i: int| 0 <= i < n && #[trigger] pl[i].1 + pl[i].2.height == self.bounding_box.height
        &&& self.bounding_box.width + self.bounding_box.height <= EXTENT_LIMIT
    }

    /// The cached area and wirelength belong to the placement.
    pub open spec fn costs_current(&self) -> bool {
        &&& self.current_area == self.bounding_box.width * self.bounding_box.height
        &&& self.current_wire == total_wire2(self.placement@, self.nets@, self.nets@.len() as int)
    }

    /// Packs the modules: x-coordinates from the x- and y-sequences,
    /// y-coordinates from the reversed x-sequence and the y-sequence; then
    /// the bounding box.
    #[verifier::spinoff_prover]
    pub fn compute_floorplan(&mut self)
        requires
            old(self).wf(),
        ensures
            final(self).wf(),
            final(self).placed(),
            final(self).modules == old(self).modules,
            final(self).nets == old(self).nets,
            final(self).x_sequence == old(self).x_sequence,
            final(self).y_sequence == old(self).y_sequence,
            final(self).index_x == old(self).index_x,
            final(self).index_y == old(self).index_y,
            final(self).current_area == old(self).current_area,
            final(self).current_wire == old(self).current_wire,
    {
        let n = self.modules.len();
        let ghost ms = self.modules@;
        let mut ws: Vec<Int> = Vec::new();
        let mut hs: Vec<Int> = Vec::new();
        let mut i: usize = 0;
        while i < n
            invariant
                i <= n,
                n == ms.len(),
                ms == self.modules@,
                ws@.len() == i,
                hs@.len() == i,
                forall|k: int| 0 <= k < i ==> ws@[k] == ms[k].width && hs@[k] == ms[k].height,
            decreases n - i,
        {
            ws.push(self.modules[i].width);
            hs.push(self.modules[i].height);
            i += 1;
        }
        assert(ws@ =~= widths(ms));
        assert(hs@ =~= heights(ms));
        proof {
            lemma_extent_split(ms, n as int);
        }
        let cx = pack(&self.x_sequence, &self.index_x, &self.y_sequence, &self.index_y, false, &ws);
        let cy = pack(&self.y_sequence, &self.index_y, &self.x_sequence, &self.index_x, true, &hs);
        let mut pl: Floorplan = Vec::new();
        let mut bw: Int = 0;
        let mut bh: Int = 0;
        i = 0;
        while i < n
            invariant
                i <= n,
                n == ms.len(),
                ms == self.modules@,
                cx@.len() == n,
                cy@.len() == n,
                ws@ == widths(ms),
                hs@ == heights(ms),
                forall|k: int| 0 <= k < n ==> #[trigger] cx@[k] + ws@[k] <= ext_sum(ws@, n as int),
                forall|k: int| 0 <= k < n ==> #[trigger] cy@[k] + hs@[k] <= ext_sum(hs@, n as int),
                ext_sum(ws@, n as int) + ext_sum(hs@, n as int) <= EXTENT_LIMIT,
                ext_sum(ws@, n as int) >= 0,
                ext_sum(hs@, n as int) >= 0,
                pl@.len() == i,
                forall|k: int| 0 <= k < i ==> #[trigger] pl@[k] == (cx@[k], cy@[k], ms[k]),
                forall|k: int| 0 <= k < i ==> #[trigger] pl@[k].0 + pl@[k].2.width <= bw,
                forall|k: int| 0 <= k < i ==> #[trigger] pl@[k].1 + pl@[k].2.height <= bh,
                i == 0 ==> bw == 0 && bh == 0,
                i > 0 ==> exists|k: int| 0 <= k < i && #[trigger] pl@[k].0 + pl@[k].2.width == bw,
                i > 0 ==> exists|k: int| 0 <= k < i && #[trigger] pl@[k].1 + pl@[k].2.height == bh,
                bw <= ext_sum(ws@, n as int),
                bh <= ext_sum(hs@, n as int),
            decreases n - i,
        {
            let r = self.modules[i];
            assert(cx@[i as int] + ws@[i as int] <= ext_sum(ws@, n as int));
            assert(cy@[i as int] + hs@[i as int] <= ext_sum(hs@, n as int));
            let ex = cx[i] + r.width;
            let ey = cy[i] + r.height;
            let ghost old_pl = pl@;
            pl.push((cx[i], cy[i], r));
            assert(forall|k: int| 0 <= k < i ==> pl@[k] == old_pl[k]);
            assert(pl@[i as int].0 + pl@[i as int].2.width == ex);
            assert(pl@[i as int].1 + pl@[i as int].2.height == ey);
            if ex > bw {
                bw = ex;
            } else if i > 0 {
                let ghost k = choose|k: int| 0 <= k < i && #[trigger] old_pl[k].0 + old_pl[k].2.width == bw;
                assert(pl@[k].0 + pl@[k].2.width == bw);
            } else {
                assert(pl@[0].0 + pl@[0].2.width == bw);
            }
            if ey > bh {
                bh = ey;
            } else if i > 0 {
                let ghost k = choose|k: int| 0 <= k < i && #[trigger] old_pl[k].1 + old_pl[k].2.height == bh;
                assert(pl@[k].1 + pl@[k].2.height == bh);
            } else {
                assert(pl@[0].1 + pl@[0].2.height == bh);
            }
            i += 1;
        }
        assert(xs_of(pl@) =~= cx@);
        assert(ys_of(pl@) =~= cy@);
        self.placement = pl;
        self.bounding_box = Rectangle { width: bw, height: bh };
        proof {
            let pl2 = self.placement@;
            assert(xs_of(pl2) == cx@);
            assert(ys_of(pl2) == cy@);
            assert(packed(xs_of(pl2), widths(ms), self.index_x@, self.index_y@, false));
            assert(packed(ys_of(pl2), heights(ms), self.index_y@, self.index_x@, true));
            assert(forall|i: int| 0 <= i < n ==> (#[trigger] pl2[i]).2 == ms[i]);
            assert(plan_within_limit(pl2));
            assert(self.placed());
        }
    }
}

proof fn lemma_packed_pair(
    coord: Seq<Int>,
    ext: Seq<Int>,
    order_idx: Seq<usize>,
    other_idx: Seq<usize>,
    reversed: bool,
    j: int,
    i: int,
)
    requires
        packed(coord, ext, order_idx, other_idx, reversed),
        0 <= i < coord.len(),
        0 <= j < coord.len(),
        precedes(order_idx, other_idx, reversed, j, i),
    ensures
        coord[j] + ext[j] <= coord[i],
{
    assert(coord[j] + ext[j] <= coord[i] + 0 * coord[j]);
}

/// No two modules of a packed sequence pair overlap: for any two modules,
/// one is left of the other when they come in the same order in both
/// sequences, and one is below the other otherwise.
#[verifier::rlimit(40)]
pub proof fn lemma_packing_disjoint(sp: &SequencePair, i: int, j: int)
    requires
        sp.wf(),
        sp.placed(),
        0 <= i < sp.n(),
        0 <= j < sp.n(),
        i != j,
    ensures
        disjoint(sp.placement@[i], sp.placement@[j]),
        left_of(sp.index_x@, sp.index_y@, i, j) ==> sp.placement@[i].0 + sp.modules@[i].width
            <= sp.placement@[j].0,
        below(sp.index_x@, sp.index_y@, i, j) ==> sp.placement@[i].1 + sp.modules@[i].height
            <= sp.placement@[j].1,
{
    let pl = sp.placement@;
    let ms = sp.modules@;
    let ix = sp.index_x@;
    let iy = sp.index_y@;
    assert(sp.x_sequence@[ix[i] as int] == i);
    assert(sp.x_sequence@[ix[j] as int] == j);
    assert(sp.y_sequence@[iy[i] as int] == i);
    assert(sp.y_sequence@[iy[j] as int] == j);
    assert(pl[i].2 == ms[i]);
    assert(pl[j].2 == ms[j]);
    let xs = xs_of(pl);
    let ys = ys_of(pl);
    let ws = widths(ms);
    let hs = heights(ms);
    assert(xs[i] == pl[i].0 && xs[j] == pl[j].0);
    assert(ys[i] == pl[i].1 && ys[j] == pl[j].1);
    assert(ws[i] == ms[i].width && ws[j] == ms[j].width);
    assert(hs[i] == ms[i].height && hs[j] == ms[j].height);
    if ix[i] < ix[j] && iy[i] < iy[j] {
        lemma_packed_pair(xs, ws, ix, iy, false, i, j);
    } else if ix[j] < ix[i] && iy[j] < iy[i] {
        lemma_packed_pair(xs, ws, ix, iy, false, j, i);
    } else if ix[i] > ix[j] && iy[i] < iy[j] {
        lemma_packed_pair(ys, hs, iy, ix, true, i, j);
    } else {
        lemma_packed_pair(ys, hs, iy, ix, true, j, i);
    }
}

/// A copy of `v`.
pub fn copy_vec<T: Copy>(v: &Vec<T>) -> (r: Vec<T>)
    ensures
        r@ == v@,
{
    let mut r: Vec<T> = Vec::new();
    let mut i: usize = 0;
    while i < v.len()
        invariant
            i <= v@.len(),
            r@ == v@.subrange(0, i as int),
        decreases v@.len() - i,
    {
        r.push(v[i]);
        i += 1;
        assert(r@ =~= v@.subrange(0, i as int));
    }
    assert(r@ =~= v@);
    r
}

/// Exchanges the entries at `a` and `b`.
fn swap_entries(v: &mut Vec<usize>, a: usize, b: usize)
    requires
        a < old(v)@.len(),
        b < old(v)@.len(),
    ensures
        final(v)@ == swap_spec(old(v)@, a as int, b as int),
{
    let x = v[a];
    let y = v[b];
    v.set(a, y);
    v.set(b, x);
}

/// Swapping two positions of a permutation, and moving the two ids in the
/// position table, gives a permutation with its position table.
proof fn lemma_swap_perm(s: Seq<usize>, idx: Seq<usize>, n: int, a: int, b: int)
    requires
        perm_with_index(s, idx, n),
        0 <= a < n,
        0 <= b < n,
    ensures
        perm_with_index(
            swap_spec(s, a, b),
            idx.update(swap_spec(s, a, b)[a] as int, a as usize).update(swap_spec(s, a, b)[b] as int, b as usize),
            n,
        ),
{
    let t = swap_spec(s, a, b);
    let id2 = idx.update(t[a] as int, a as usize).update(t[b] as int, b as usize);
    assert(s[a] < n && s[b] < n);
    assert forall|k: int| 0 <= k < n implies #[trigger] t[k] < n && id2[t[k] as int] == k by {
        if k != a && k != b {
            assert(t[k] == s[k]);
            assert(idx[s[k] as int] == k);
            if s[k] == s[a] {
                assert(idx[s[a] as int] == a);
            }
            if s[k] == s[b] {
                assert(idx[s[b] as int] == b);
            }
        }
    }
    assert forall|id: int| 0 <= id < n implies #[trigger] id2[id] < n && t[id2[id] as int] == id by {
        assert(idx[id] < n && s[idx[id] as int] == id);
        if id != t[a] && id != t[b] {
            let k = idx[id] as int;
            if k == a {
                assert(t[b] == s[a]);
            }
            if k == b {
                assert(t[a] == s[b]);
            }
        }
    }
}

impl SPMoveType {
    /// The move's positions and ids lie within `n` modules.
    pub open spec fn fits(&self, n: int) -> bool {
        match *self {
            SPMoveType::RotateModule(a) => a < n,
            SPMoveType::SwapLeftSide(a, b) => a < n && b < n,
            SPMoveType::SwapRightSide(a, b) => a < n && b < n,
            SPMoveType::SwapBothSides(a, b, c, d) => a < n && b < n && c < n && d < n,
        }
    }

    /// The rotations after the move.
    pub open spec fn modules_after(&self, ms: Seq<Rectangle>) -> Seq<Rectangle> {
        match *self {
            SPMoveType::RotateModule(a) => ms.update(a as int, transpose_spec(ms[a as int])),
            _ => ms,
        }
    }

    /// The x-sequence after the move.
    pub open spec fn x_after(&self, x: Seq<usize>) -> Seq<usize> {
        match *self {
            SPMoveType::SwapLeftSide(a, b) => swap_spec(x, a as int, b as int),
            SPMoveType::SwapBothSides(a, b, _, _) => swap_spec(x, a as int, b as int),
            _ => x,
        }
    }

    /// The y-sequence after the move.
    pub open spec fn y_after(&self, y: Seq<usize>) -> Seq<usize> {
        match *self {
            SPMoveType::SwapRightSide(a, b) => swap_spec(y, a as int, b as int),
            SPMoveType::SwapBothSides(_, _, c, d) => swap_spec(y, c as int, d as int),
            _ => y,
        }
    }

    /// Applies the move to the sequences and rotations, keeping the position
    /// tables in step; the placement is left for `update`.
    pub fn apply(&self, sp: &mut SequencePair)
        requires
            old(sp).wf(),
            self.fits(old(sp).n()),
        ensures
            final(sp).wf(),
            final(sp).nets == old(sp).nets,
            final(sp).modules@ == self.modules_after(old(sp).modules@),
            final(sp).x_sequence@ == self.x_after(old(sp).x_sequence@),
            final(sp).y_sequence@ == self.y_after(old(sp).y_sequence@),
    {
        let ghost n = sp.n();
        match *self {
            SPMoveType::RotateModule(a) => {
                let r = sp.modules[a].transpose();
                proof {
                    lemma_extent_rotate(sp.modules@, a as int, n);
                }
                sp.modules.set(a, r);
            },
            SPMoveType::SwapLeftSide(a, b) => {
                sp.swap_x(a, b);
            },
            SPMoveType::SwapRightSide(a, b) => {
                sp.swap_y(a, b);
            },
            SPMoveType::SwapBothSides(a, b, c, d) => {
                sp.swap_x(a, b);
                sp.swap_y(c, d);
            },
        }
    }
}

impl SequencePair {
    /// Swaps two positions of the x-sequence and updates the position table.
    fn swap_x(&mut self, a: usize, b: usize)
        requires
            old(self).wf(),
            a < old(self).n(),
            b < old(self).n(),
        ensures
            final(self).wf(),
            final(self).x_sequence@ == swap_spec(old(self).x_sequence@, a as int, b as int),
            final(self).modules == old(self).modules,
            final(self).nets == old(self).nets,
            final(self).y_sequence == old(self).y_sequence,
            final(self).index_y == old(self).index_y,
    {
        proof {
            lemma_swap_perm(self.x_sequence@, self.index_x@, self.n(), a as int, b as int);
        }
        swap_entries(&mut self.x_sequence, a, b);
        let ia = self.x_sequence[a];
        let ib = self.x_sequence[b];
        self.index_x.set(ia, a);
        self.index_x.set(ib, b);
    }

    /// Swaps two positions of the y-sequence and updates the position table.
    fn swap_y(&mut self, a: usize, b: usize)
        requires
            old(self).wf(),
            a < old(self).n(),
            b < old(self).n(),
        ensures
            final(self).wf(),
            final(self).y_sequence@ == swap_spec(old(self).y_sequence@, a as int, b as int),
            final(self).modules == old(self).modules,
            final(self).nets == old(self).nets,
            final(self).x_sequence == old(self).x_sequence,
            final(self).index_x == old(self).index_x,
    {
        proof {
            lemma_swap_perm(self.y_sequence@, self.index_y@, self.n(), a as int, b as int);
        }
        swap_entries(&mut self.y_sequence, a, b);
        let ia = self.y_sequence[a];
        let ib = self.y_sequence[b];
        self.index_y.set(ia, a);
        self.index_y.set(ib, b);
    }

    /// Recomputes the placement, the area of its bounding box and its
    /// wirelength.
    pub fn update(&mut self)
        requires
            old(self).wf(),
        ensures
            final(self).wf(),
            final(self).placed(),
            final(self).costs_current(),
            final(self).modules == old(self).modules,
            final(self).nets == old(self).nets,
            final(self).x_sequence == old(self).x_sequence,
            final(self).y_sequence == old(self).y_sequence,
            final(self).index_x == old(self).index_x,
            final(self).index_y == old(self).index_y,
    {
        self.compute_floorplan();
        let bw = self.bounding_box.width;
        let bh = self.bounding_box.height;
        assert(bw * bh <= EXTENT_LIMIT * EXTENT_LIMIT) by (nonlinear_arith)
            requires
                bw + bh <= EXTENT_LIMIT,
        ;
        let ghost placed_state = *self;
        assert(placed_state.placed());
        self.current_area = self.bounding_box.area();
        self.current_wire = compute_wirelength(&self.placement, &self.nets);
        assert(self.placement == placed_state.placement && self.bounding_box == placed_state.bounding_box
            && self.modules == placed_state.modules);
    }

    /// A sequence pair with both sequences in id order, so that the modules
    /// start out in one row, packed and costed.
    pub fn new(modules: Vec<Rectangle>, nets: Vec<Net>) -> (r: SequencePair)
        requires
            modules@.len() >= 1,
            extent_total(modules@, modules@.len() as int) <= EXTENT_LIMIT,
            pins_in_range(nets@, modules@.len() as int),
        ensures
            r.wf(),
            r.placed(),
            r.costs_current(),
            r.modules@ == modules@,
            r.nets@ == nets@,
            forall|k: int| 0 <= k < modules@.len() ==> #[trigger] r.x_sequence@[k] == k && r.y_sequence@[k] == k,
    {
        let n = modules.len();
        let mut ids: Vec<usize> = Vec::new();
        let mut placement: Floorplan = Vec::new();
        let mut i: usize = 0;
        while i < n
            invariant
                i <= n,
                ids@.len() == i,
                placement@.len() == i,
                forall|k: int| 0 <= k < i ==> #[trigger] ids@[k] == k,
            decreases n - i,
        {
            ids.push(i);
            placement.push((0, 0, Rectangle { width: 0, height: 0 }));
            i += 1;
        }
        let mut sp = SequencePair {
            modules,
            nets,
            x_sequence: copy_vec(&ids),
            y_sequence: copy_vec(&ids),
            index_x: copy_vec(&ids),
            index_y: ids,
            placement,
            current_area: 0,
            current_wire: 0,
            bounding_box: Rectangle { width: 0, height: 0 },
        };
        sp.update();
        sp
    }

    pub fn get_floor_area(&self) -> (r: Int)
        ensures
            r == self.current_area,
    {
        self.current_area
    }

    /// Twice the half-perimeter wirelength of the current placement.
    pub fn get_floor_wire(&self) -> (r: u128)
        ensures
            r == self.current_wire,
    {
        self.current_wire
    }

    pub fn get_floorplan(&self) -> (r: Floorplan)
        ensures
            r@ == self.placement@,
    {
        copy_vec(&self.placement)
    }

    /// The move that the draws give: `kind` picks a rotation (0), a swap in
    /// the x-sequence (1), in the y-sequence (2) or of two modules in both
    /// (3); `a` is a module or position and `b0` picks a second one, other
    /// than `a`. With a single module only rotations exist.
    pub open spec fn move_of_draws(&self, kind: usize, a: usize, b0: usize) -> SPMoveType {
        let b = if b0 >= a { (b0 + 1) as usize } else { b0 };
        if kind == 0 || self.n() < 2 {
            SPMoveType::RotateModule(a)
        } else if kind == 1 {
            SPMoveType::SwapLeftSide(a, b)
        } else if kind == 2 {
            SPMoveType::SwapRightSide(a, b)
        } else {
            SPMoveType::SwapBothSides(self.index_x@[a as int], self.index_x@[b as int], self.index_y@[a as int], self.index_y@[b as int])
        }
    }

    /// A move that changes the solution: a rotation, a swap of two different
    /// positions of one sequence, or a swap of the same two modules in both
    /// sequences.
    pub open spec fn real_sp_move(&self, m: SPMoveType) -> bool {
        let x = self.x_sequence@;
        let y = self.y_sequence@;
        match m {
            SPMoveType::RotateModule(a) => a < self.n(),
            SPMoveType::SwapLeftSide(a, b) => a != b && a < self.n() && b < self.n(),
            SPMoveType::SwapRightSide(a, b) => a != b && a < self.n() && b < self.n(),
            SPMoveType::SwapBothSides(a, b, c, d) => a != b && a < self.n() && b < self.n() && c < self.n() && d
                < self.n() && x[a as int] == y[c as int] && x[b as int] == y[d as int],
        }
    }

    /// The move that the draws `kind < 4`, `a < n` and `b0 < n - 1` give.
    pub fn move_from_draws(&self, kind: usize, a: usize, b0: usize) -> (m: SPMoveType)
        requires
            self.wf(),
            kind < 4,
            a < self.n(),
            self.n() >= 2 ==> b0 < self.n() - 1,
        ensures
            m == self.move_of_draws(kind, a, b0),
            m.fits(self.n()),
            self.real_sp_move(m),
    {
        let n = self.modules.len();
        if kind == 0 || n < 2 {
            SPMoveType::RotateModule(a)
        } else {
            let b = if b0 >= a { b0 + 1 } else { b0 };
            if kind == 1 {
                SPMoveType::SwapLeftSide(a, b)
            } else if kind == 2 {
                SPMoveType::SwapRightSide(a, b)
            } else {
                assert(self.x_sequence@[self.index_x@[a as int] as int] == a);
                assert(self.y_sequence@[self.index_y@[a as int] as int] == a);
                assert(self.x_sequence@[self.index_x@[b as int] as int] == b);
                assert(self.y_sequence@[self.index_y@[b as int] as int] == b);
                proof {
                    if self.index_x@[a as int] == self.index_x@[b as int] {
                        assert(self.x_sequence@[self.index_x@[a as int] as int] == b);
                    }
                }
                SPMoveType::SwapBothSides(self.index_x[a], self.index_x[b], self.index_y[a], self.index_y[b])
            }
        }
    }

    /// A random move: a rotation, a swap in one sequence, or a swap of two
    /// modules in both sequences. With a single module only rotations exist.
    pub fn random_move(&self) -> (m: SPMoveType)
        requires
            self.wf(),
        ensures
            m.fits(self.n()),
            self.real_sp_move(m),
            exists|kind: usize, a: usize, b0: usize|
                kind < 4 && a < self.n() && (b0 == 0 || b0 < self.n() - 1) && m == #[trigger] self.move_of_draws(kind, a, b0),
    {
        let n = self.modules.len();
        let kind = random_below(4);
        let a = random_below(n);
        let b0 = if n >= 2 { random_below(n - 1) } else { 0 };
        self.move_from_draws(kind, a, b0)
    }
}

impl Mutation<SPMoveType> for SequencePair {
    open spec fn ready(&self) -> bool {
        self.wf() && self.placed() && self.costs_current()
    }

    open spec fn move_fits(&self, m: &SPMoveType) -> bool {
        m.fits(self.n())
    }

    open spec fn real_move(&self, m: &SPMoveType) -> bool {
        self.real_sp_move(*m)
    }

    open spec fn moves_to(&self, m: &SPMoveType, next: &SequencePair) -> bool {
        &&& next.modules@ == m.modules_after(self.modules@)
        &&& next.x_sequence@ == m.x_after(self.x_sequence@)
        &&& next.y_sequence@ == m.y_after(self.y_sequence@)
        &&& next.nets == self.nets
    }

    open spec fn same_solution(&self, other: &SequencePair) -> bool {
        &&& self.modules@ == other.modules@
        &&& self.x_sequence@ == other.x_sequence@
        &&& self.y_sequence@ == other.y_sequence@
        &&& self.nets == other.nets
    }

    fn get_random_move(&mut self) -> (m: SPMoveType) {
        self.random_move()
    }

    fn apply_move(&mut self, m: &SPMoveType) {
        m.apply(self);
        self.update();
    }

    proof fn lemma_same_solution_refl(a: &SequencePair) {
    }

    proof fn lemma_same_solution_trans(a: &SequencePair, b: &SequencePair, c: &SequencePair) {
    }

    proof fn lemma_move_twice(a: &SequencePair, b: &SequencePair, c: &SequencePair, m: &SPMoveType) {
        match *m {
            SPMoveType::RotateModule(i) => {
                assert(c.modules@ =~= a.modules@);
            },
            SPMoveType::SwapLeftSide(i, j) => {
                assert(c.x_sequence@ =~= a.x_sequence@);
            },
            SPMoveType::SwapRightSide(i, j) => {
                assert(c.y_sequence@ =~= a.y_sequence@);
            },
            SPMoveType::SwapBothSides(i, j, k, l) => {
                assert(c.x_sequence@ =~= a.x_sequence@);
                assert(c.y_sequence@ =~= a.y_sequence@);
            },
        }
    }
}


/// The solution holds two permutations of `0..n` and `n` rectangles within
/// the extent limit.
pub open spec fn valid_solution(s: SequencePairSolution, n: int) -> bool {
    valid_sequences(s.0@, s.1@, s.2@, n)
}

pub open spec fn valid_sequences(xs: Seq<usize>, ys: Seq<usize>, ms: Seq<Rectangle>, n: int) -> bool {
    &&& exists|ix: Seq<usize>| perm_with_index(xs, ix, n)
    &&& exists|iy: Seq<usize>| perm_with_index(ys, iy, n)
    &&& ms.len() == n
    &&& extent_total(ms, n) <= EXTENT_LIMIT
}

/// The position of each id in `s`, or `None` when `s` is not a permutation
/// of `0..n`.
#[verifier::spinoff_prover]
pub fn position_table(s: &Vec<usize>, n: usize) -> (r: Option<Vec<usize>>)
    ensures
        match r {
            Some(idx) => perm_with_index(s@, idx@, n as int),
            None => !exists|idx: Seq<usize>| perm_with_index(s@, idx, n as int),
        },
{
    if s.len() != n {
        return None;
    }
    let mut idx: Vec<usize> = Vec::new();
    let mut i: usize = 0;
    while i < n
        invariant
            i <= n,
            idx@.len() == i,
            forall|k: int| 0 <= k < i ==> idx@[k] == n,
        decreases n - i,
    {
        idx.push(n);
        i += 1;
    }
    i = 0;
    while i < n
        invariant
            i <= n,
            s@.len() == n,
            idx@.len() == n,
            forall|k: int| 0 <= k < i ==> s@[k] < n,
            forall|id: int|
                0 <= id < n ==> (#[trigger] idx@[id] == n && forall|k: int| 0 <= k < i ==> s@[k] != id) || (
                idx@[id] < i && s@[idx@[id] as int] == id && forall|k: int| idx@[id] < k < i ==> s@[k] != id),
        decreases n - i,
    {
        let v = s[i];
        if v >= n {
            assert(!exists|ix: Seq<usize>| perm_with_index(s@, ix, n as int)) by {
                if exists|ix: Seq<usize>| perm_with_index(s@, ix, n as int) {
                    let ix = choose|ix: Seq<usize>| perm_with_index(s@, ix, n as int);
                    assert(s@[i as int] < n);
                }
            }
            return None;
        }
        idx.set(v, i);
        i += 1;
    }
    i = 0;
    while i < n
        invariant
            i <= n,
            s@.len() == n,
            idx@.len() == n,
            forall|k: int| 0 <= k < n ==> s@[k] < n,
            forall|id: int|
                0 <= id < n ==> (#[trigger] idx@[id] == n && forall|k: int| 0 <= k < n ==> s@[k] != id) || (
                idx@[id] < n && s@[idx@[id] as int] == id && forall|k: int| idx@[id] < k < n ==> s@[k] != id),
            forall|k: int| 0 <= k < i ==> idx@[s@[k] as int] == k,
            forall|id: int| 0 <= id < i ==> #[trigger] idx@[id] < n,
        decreases n - i,
    {
        if idx[s[i]] != i {
            assert(!exists|ix: Seq<usize>| perm_with_index(s@, ix, n as int)) by {
                if exists|ix: Seq<usize>| perm_with_index(s@, ix, n as int) {
                    let ix = choose|ix: Seq<usize>| perm_with_index(s@, ix, n as int);
                    let v = s@[i as int] as int;
                    assert(idx@[v] < n);
                    let k2 = idx@[v] as int;
                    assert(s@[k2] == v);
                    assert(ix[s@[k2] as int] == k2);
                    assert(ix[s@[i as int] as int] == i);
                }
            }
            return None;
        }
        if idx[i] >= n {
            assert(!exists|ix: Seq<usize>| perm_with_index(s@, ix, n as int)) by {
                if exists|ix: Seq<usize>| perm_with_index(s@, ix, n as int) {
                    let ix = choose|ix: Seq<usize>| perm_with_index(s@, ix, n as int);
                    assert(s@[ix[i as int] as int] == i);
                }
            }
            return None;
        }
        i += 1;
    }
    Some(idx)
}

/// Whether the sum of `width + height` over `ms` stays within the extent
/// limit.
pub fn extent_within_limit(ms: &Vec<Rectangle>) -> (r: bool)
    ensures
        r == (extent_total(ms@, ms@.len() as int) <= EXTENT_LIMIT),
{
    let mut total: Int = 0;
    let mut i: usize = 0;
    while i < ms.len()
        invariant
            i <= ms@.len(),
            total == extent_total(ms@, i as int),
            total <= EXTENT_LIMIT,
        decreases ms@.len() - i,
    {
        let r = ms[i];
        if r.width > EXTENT_LIMIT || r.height > EXTENT_LIMIT || total + r.width + r.height > EXTENT_LIMIT {
            proof {
                lemma_extent_monotone(ms@, i as int + 1, ms@.len() as int);
            }
            return false;
        }
        total = total + r.width + r.height;
        i += 1;
    }
    true
}

proof fn lemma_extent_monotone(ms: Seq<Rectangle>, a: int, b: int)
    requires
        0 <= a <= b <= ms.len(),
    ensures
        extent_total(ms, a) <= extent_total(ms, b),
    decreases b - a,
{
    if a < b {
        lemma_extent_monotone(ms, a, b - 1);
    }
}

/// Whether `s` can be installed in a sequence pair of `n` modules.
pub fn is_valid_solution(s: &SequencePairSolution, n: usize) -> (r: bool)
    ensures
        r == valid_solution(*s, n as int),
{
    let tx = position_table(&s.0, n);
    let ty = position_table(&s.1, n);
    match (tx, ty) {
        (Some(ix), Some(iy)) => s.2.len() == n && extent_within_limit(&s.2),
        _ => false,
    }
}

/// The sequences that recursive bisection of `order[left..right]` gives:
/// halves are split alternately side by side and one above the other.
pub open spec fn bisect(order: Seq<usize>, left: int, right: int, split_horizontal: bool) -> (Seq<usize>, Seq<usize>)
    decreases right - left,
{
    if right - left <= 1 {
        (seq![order[left]], seq![order[left]])
    } else if right - left == 2 {
        let i = order[left];
        let j = order[left + 1];
        if split_horizontal {
            (seq![i, j], seq![i, j])
        } else {
            (seq![j, i], seq![i, j])
        }
    } else {
        let mid = (left + right + 1) / 2;
        let (x1, y1) = bisect(order, left, mid, !split_horizontal);
        let (x2, y2) = bisect(order, mid, right, !split_horizontal);
        if split_horizontal {
            (x1 + x2, y1 + y2)
        } else {
            (x2 + x1, y1 + y2)
        }
    }
}

/// Both sequences of recursive bisection hold exactly the entries of
/// `order[left..right]`, each as often as there.
pub proof fn lemma_bisect_entries(order: Seq<usize>, left: int, right: int, split_horizontal: bool)
    requires
        0 <= left < right <= order.len(),
    ensures
        bisect(order, left, right, split_horizontal).0.len() == right - left,
        bisect(order, left, right, split_horizontal).1.len() == right - left,
        bisect(order, left, right, split_horizontal).0.to_multiset() == order.subrange(left, right).to_multiset(),
        bisect(order, left, right, split_horizontal).1.to_multiset() == order.subrange(left, right).to_multiset(),
    decreases right - left,
{
    let (x, y) = bisect(order, left, right, split_horizontal);
    if right - left <= 1 {
        assert(order.subrange(left, right) =~= seq![order[left]]);
    } else if right - left == 2 {
        let i = order[left];
        let j = order[left + 1];
        assert(order.subrange(left, right) =~= seq![i] + seq![j]);
        assert(seq![i, j] =~= seq![i] + seq![j]);
        assert(seq![j, i] =~= seq![j] + seq![i]);
        vstd::seq_lib::lemma_multiset_commutative(seq![i], seq![j]);
        vstd::seq_lib::lemma_multiset_commutative(seq![j], seq![i]);
        assert(seq![i].to_multiset().add(seq![j].to_multiset()) =~= seq![j].to_multiset().add(seq![i].to_multiset()));
    } else {
        let mid = (left + right + 1) / 2;
        let (x1, y1) = bisect(order, left, mid, !split_horizontal);
        let (x2, y2) = bisect(order, mid, right, !split_horizontal);
        lemma_bisect_entries(order, left, mid, !split_horizontal);
        lemma_bisect_entries(order, mid, right, !split_horizontal);
        assert(order.subrange(left, right) =~= order.subrange(left, mid) + order.subrange(mid, right));
        vstd::seq_lib::lemma_multiset_commutative(order.subrange(left, mid), order.subrange(mid, right));
        vstd::seq_lib::lemma_multiset_commutative(x1, x2);
        vstd::seq_lib::lemma_multiset_commutative(x2, x1);
        vstd::seq_lib::lemma_multiset_commutative(y1, y2);
        assert(x1.to_multiset().add(x2.to_multiset()) =~= x2.to_multiset().add(x1.to_multiset()));
    }
}

impl SequencePair {
    /// The sequences of recursive bisection over `order[left..right]`; each
    /// holds exactly the entries of `order[left..right]`.
    fn recursive_bisection(order: &Vec<usize>, left: usize, right: usize, split_horizontal: bool) -> (r: (Vec<usize>, Vec<usize>))
        requires
            left < right <= order@.len(),
        ensures
            (r.0@, r.1@) == bisect(order@, left as int, right as int, split_horizontal),
            r.0@.to_multiset() == order@.subrange(left as int, right as int).to_multiset(),
            r.1@.to_multiset() == order@.subrange(left as int, right as int).to_multiset(),
            r.0@.len() == right - left,
            r.1@.len() == right - left,
    {
        let r = SequencePair::bisect_sequences(order, left, right, split_horizontal);
        proof {
            lemma_bisect_entries(order@, left as int, right as int, split_horizontal);
        }
        r
    }

    /// The sequences of recursive bisection, built by recursion.
    fn bisect_sequences(order: &Vec<usize>, left: usize, right: usize, split_horizontal: bool) -> (r: (Vec<usize>, Vec<usize>))
        requires
            left < right <= order@.len(),
        ensures
            (r.0@, r.1@) == bisect(order@, left as int, right as int, split_horizontal),
        decreases right - left,
    {
        if right - left == 1 {
            let i = order[left];
            (vec![i], vec![i])
        } else if right - left == 2 {
            let i = order[left];
            let j = order[left + 1];
            if split_horizontal {
                (vec![i, j], vec![i, j])
            } else {
                (vec![j, i], vec![i, j])
            }
        } else {
            let mid = left + (right - left) / 2 + (right - left) % 2;
            let (mut x1, mut y1) = SequencePair::bisect_sequences(order, left, mid, !split_horizontal);
            let (mut x2, mut y2) = SequencePair::bisect_sequences(order, mid, right, !split_horizontal);
            if split_horizontal {
                x1.append(&mut x2);
                y1.append(&mut y2);
                (x1, y1)
            } else {
                x2.append(&mut x1);
                y1.append(&mut y2);
                (x2, y1)
            }
        }
    }

    /// Installs the sequences of recursive bisection over `order`, keeping
    /// the rotations. Returns false, changing nothing, when `order` does not
    /// hold one entry per module or the sequences are not permutations.
    pub fn set_solution_recursive_bisection(&mut self, order: &Vec<usize>) -> (r: bool)
        requires
            old(self).wf(),
            old(self).placed(),
            old(self).costs_current(),
        ensures
            final(self).wf(),
            final(self).placed(),
            final(self).costs_current(),
            final(self).modules@ == old(self).modules@,
            r == (order@.len() == old(self).n() && valid_sequences(
                bisect(order@, 0, old(self).n(), true).0,
                bisect(order@, 0, old(self).n(), true).1,
                old(self).modules@,
                old(self).n(),
            )),
            r ==> final(self).x_sequence@ == bisect(order@, 0, old(self).n(), true).0
                && final(self).y_sequence@ == bisect(order@, 0, old(self).n(), true).1,
            !r ==> *final(self) == *old(self),
    {
        let n = self.modules.len();
        if order.len() != n {
            return false;
        }
        let (xs, ys) = SequencePair::recursive_bisection(order, 0, n, true);
        let s = (xs, ys, copy_vec(&self.modules));
        if !is_valid_solution(&s, n) {
            return false;
        }
        self.install(s);
        true
    }

    /// Installs a solution and recomputes the placement and costs.
    fn install(&mut self, s: SequencePairSolution)
        requires
            old(self).wf(),
            valid_solution(s, old(self).n()),
        ensures
            final(self).wf(),
            final(self).placed(),
            final(self).costs_current(),
            final(self).x_sequence@ == s.0@,
            final(self).y_sequence@ == s.1@,
            final(self).modules@ == s.2@,
            final(self).nets == old(self).nets,
    {
        let n = self.modules.len();
        let (xs, ys, ms) = s;
        let ix = position_table(&xs, n);
        let iy = position_table(&ys, n);
        match (ix, iy) {
            (Some(ix), Some(iy)) => {
                self.x_sequence = xs;
                self.y_sequence = ys;
                self.index_x = ix;
                self.index_y = iy;
                self.modules = ms;
                self.update();
            },
            _ => {},
        }
    }
}

impl Solution<SequencePairSolution> for SequencePair {
    open spec fn holds_solution(&self) -> bool {
        self.wf() && self.placed() && self.costs_current()
    }

    open spec fn accepts(&self, s: &SequencePairSolution) -> bool {
        valid_solution(*s, self.n())
    }

    open spec fn holds(&self, s: &SequencePairSolution) -> bool {
        &&& s.0@ == self.x_sequence@
        &&& s.1@ == self.y_sequence@
        &&& s.2@ == self.modules@
    }

    fn copy_solution(&self) -> (s: SequencePairSolution) {
        (copy_vec(&self.x_sequence), copy_vec(&self.y_sequence), copy_vec(&self.modules))
    }

    fn set_solution(&mut self, s: SequencePairSolution) {
        self.install(s);
    }
}


impl crate::search::FloorMeasure for SequencePair {
    open spec fn area_spec(&self) -> int {
        self.current_area as int
    }

    open spec fn wire_spec(&self) -> int {
        self.current_wire as int
    }

    fn floor_area(&self) -> u64 {
        self.current_area
    }

    fn floor_wire(&self) -> u128 {
        self.current_wire
    }
}

} // verus!
