//! Shape functions: the Pareto-minimal sets of outer shapes that a group of
//! modules can take.

use vstd::prelude::*;
use crate::geometry::{Rectangle, ModuleNode, le, is_cut, combine_spec, combinable};

verus! {

/// No point of `s` fits inside another one; in particular no point repeats.
pub open spec fn pareto(s: Seq<Rectangle>) -> bool {
    forall|i: int, j: int|
        0 <= i < s.len() && 0 <= j < s.len() && i != j ==> !le(#[trigger] s[i], #[trigger] s[j])
}

/// Some point of `s` fits inside `r`.
pub open spec fn dominated_in(s: Seq<Rectangle>, r: Rectangle) -> bool {
    exists|i: int| 0 <= i < s.len() && le(#[trigger] s[i], r)
}

/// `pts` is the Pareto frontier of the candidate shapes `cands`: its points
/// are candidates, pairwise incomparable, and every candidate contains one of
/// them.
pub open spec fn frontier(pts: Seq<Rectangle>, cands: Set<Rectangle>) -> bool {
    &&& pareto(pts)
    &&& forall|i: int| 0 <= i < pts.len() ==> #[trigger] cands.contains(pts[i])
    &&& forall|c: Rectangle| cands.contains(c) ==> dominated_in(pts, c)
}

/// The points that `add` leaves when `r` is offered to the frontier `s`.
pub open spec fn added(s: Seq<Rectangle>, r: Rectangle, q: Rectangle) -> bool {
    if dominated_in(s, r) {
        s.contains(q)
    } else {
        (s.contains(q) && !le(r, q)) || q == r
    }
}

/// Every shape that stacks a point of `a` with a point of `b` under `o`.
pub open spec fn cross(a: Seq<Rectangle>, b: Seq<Rectangle>, o: ModuleNode) -> Set<Rectangle> {
    Set::new(
        |q: Rectangle|
            exists|i: int, j: int|
                0 <= i < a.len() && 0 <= j < b.len() && q == combine_spec(
                    #[trigger] a[i],
                    #[trigger] b[j],
                    o,
                ),
    )
}

/// The shapes of `cross` met before the pair `(n, m)` in row-major order.
pub open spec fn cross_prefix(
    a: Seq<Rectangle>,
    b: Seq<Rectangle>,
    o: ModuleNode,
    n: int,
    m: int,
) -> Set<Rectangle> {
    Set::new(
        |q: Rectangle|
            exists|i: int, j: int|
                0 <= i < a.len() && 0 <= j < b.len() && (i < n || (i == n && j < m)) && q
                    == combine_spec(#[trigger] a[i], #[trigger] b[j], o),
    )
}

/// Every point of `a` can be stacked with every point of `b`.
pub open spec fn all_combinable(a: Seq<Rectangle>, b: Seq<Rectangle>) -> bool {
    forall|i: int, j: int|
        0 <= i < a.len() && 0 <= j < b.len() ==> combinable(#[trigger] a[i], #[trigger] b[j])
}

/// `(a[i], b[j])` is the first pair in row-major order that stacks to `rect`.
pub open spec fn first_split_at(a: Seq<Rectangle>, b: Seq<Rectangle>, o: ModuleNode, rect: Rectangle, i: int, j: int) -> bool {
    &&& 0 <= i < a.len()
    &&& 0 <= j < b.len()
    &&& combine_spec(a[i], b[j], o) == rect
    &&& forall|i2: int, j2: int|
        0 <= i2 < a.len() && 0 <= j2 < b.len() && (i2 < i || (i2 == i && j2 < j)) ==> combine_spec(
            #[trigger] a[i2],
            #[trigger] b[j2],
            o,
        ) != rect
}

/// `(r1, r2)` is the first pair of points of `a` and `b`, in row-major
/// order, that stacks to `rect`.
pub open spec fn first_split(a: Seq<Rectangle>, b: Seq<Rectangle>, o: ModuleNode, rect: Rectangle, r1: Rectangle, r2: Rectangle) -> bool {
    exists|i: int, j: int| #[trigger] first_split_at(a, b, o, rect, i, j) && a[i] == r1 && b[j] == r2
}

/// The second pass of `add` from slot `i` on: the first slot that
/// `r` fits inside is overwritten by `r`, later such slots are removed by
/// moving the last point into them, and `r` is appended when no slot was
/// overwritten.
pub open spec fn add_pass(cur: Seq<Rectangle>, i: int, found: bool, r: Rectangle) -> Seq<Rectangle>
    decreases cur.len() - i,
{
    if i < 0 || i >= cur.len() {
        if found { cur } else { cur.push(r) }
    } else if le(r, cur[i]) {
        if !found {
            add_pass(cur.update(i, r), i + 1, true, r)
        } else {
            add_pass(cur.update(i, cur.last()).drop_last(), i, found, r)
        }
    } else {
        add_pass(cur, i + 1, found, r)
    }
}

/// The points that `add` leaves, in order.
pub open spec fn add_spec(s: Seq<Rectangle>, r: Rectangle) -> Seq<Rectangle> {
    if dominated_in(s, r) { s } else { add_pass(s, 0, false, r) }
}

/// `start` with the shapes of row `i` (point `a[i]` stacked with the first
/// `j` points of `b`) offered in turn.
pub open spec fn combine_row(start: Seq<Rectangle>, a: Seq<Rectangle>, b: Seq<Rectangle>, o: ModuleNode, i: int, j: int) -> Seq<Rectangle>
    decreases j,
{
    if j <= 0 {
        start
    } else {
        add_spec(combine_row(start, a, b, o, i, j - 1), combine_spec(a[i], b[j - 1], o))
    }
}

/// The points that `combine` gives after the first `i` rows, in order.
pub open spec fn combine_rows(a: Seq<Rectangle>, b: Seq<Rectangle>, o: ModuleNode, i: int) -> Seq<Rectangle>
    decreases i,
{
    if i <= 0 {
        Seq::empty()
    } else {
        combine_row(combine_rows(a, b, o, i - 1), a, b, o, i - 1, b.len() as int)
    }
}

/// There is only one first pair that stacks to `rect`.
pub proof fn lemma_first_split_unique(
    a: Seq<Rectangle>,
    b: Seq<Rectangle>,
    o: ModuleNode,
    rect: Rectangle,
    r1: Rectangle,
    r2: Rectangle,
    q1: Rectangle,
    q2: Rectangle,
)
    requires
        first_split(a, b, o, rect, r1, r2),
        first_split(a, b, o, rect, q1, q2),
    ensures
        r1 == q1 && r2 == q2,
{
    let (i, j) = choose|i: int, j: int| #[trigger] first_split_at(a, b, o, rect, i, j) && a[i] == r1 && b[j] == r2;
    let (i2, j2) = choose|i: int, j: int| #[trigger] first_split_at(a, b, o, rect, i, j) && a[i] == q1 && b[j] == q2;
    if i < i2 || (i == i2 && j < j2) {
        assert(combine_spec(a[i], b[j], o) != rect);
    } else if i2 < i || (i == i2 && j2 < j) {
        assert(combine_spec(a[i2], b[j2], o) != rect);
    }
}

/// A set of achievable outer shapes, kept as its Pareto frontier.
#[derive(Debug, Clone)]
pub struct ShapeFunction {
    pub points: Vec<Rectangle>,
}

impl ShapeFunction {
    pub open spec fn wf(&self) -> bool {
        pareto(self.points@)
    }
}

impl ShapeFunction {
    /// Offers `rectangle` to the frontier: it is dropped when a point fits
    /// inside it; otherwise it replaces every point that it fits inside, or
    /// is appended when there is none.
    #[verifier::spinoff_prover]
    pub fn add(&mut self, rectangle: Rectangle)
        requires
            old(self).wf(),
        ensures
            final(self).wf(),
            forall|q: Rectangle| final(self).points@.contains(q) <==> added(old(self).points@, rectangle, q),
            dominated_in(old(self).points@, rectangle) ==> final(self).points@ == old(self).points@,
            !dominated_in(old(self).points@, rectangle) && (forall|k: int|
                0 <= k < old(self).points@.len() ==> !le(rectangle, #[trigger] old(self).points@[k]))
                ==> final(self).points@ == old(self).points@.push(rectangle),
            final(self).points@ == add_spec(old(self).points@, rectangle),
    {
        let ghost o = self.points@;
        let mut i: usize = 0;
        while i < self.points.len()
            invariant
                self.points@ == o,
                pareto(o),
                0 <= i <= o.len(),
                forall|k: int| 0 <= k < i ==> !le(#[trigger] o[k], rectangle),
            decreases o.len() - i,
        {
            if self.points[i].width <= rectangle.width && self.points[i].height <= rectangle.height {
                return;
            }
            i += 1;
        }
        assert(!dominated_in(o, rectangle));
        assert(!o.contains(rectangle)) by {
            if o.contains(rectangle) {
                let k = choose|k: int| 0 <= k < o.len() && o[k] == rectangle;
                assert(le(o[k], rectangle));
            }
        }
        let mut found_place = false;
        i = 0;
        while i < self.points.len()
            invariant
                0 <= i <= self.points.len(),
                pareto(o),
                !dominated_in(o, rectangle),
                !o.contains(rectangle),
                forall|a: int, b: int|
                    0 <= a < self.points.len() && 0 <= b < self.points.len() && a != b
                        ==> self.points@[a] != self.points@[b],
                forall|k: int|
                    0 <= k < self.points.len() ==> self.points@[k] == rectangle || o.contains(
                        #[trigger] self.points@[k],
                    ),
                forall|k: int|
                    0 <= k < i ==> #[trigger] self.points@[k] == rectangle || !le(
                        rectangle,
                        self.points@[k],
                    ),
                forall|k: int| i <= k < self.points.len() ==> #[trigger] self.points@[k] != rectangle,
                found_place <==> exists|k: int| 0 <= k < i && #[trigger] self.points@[k] == rectangle,
                !found_place ==> self.points@ == o && forall|k: int| 0 <= k < i ==> !le(rectangle, #[trigger] o[k]),
                add_pass(self.points@, i as int, found_place, rectangle) == add_pass(o, 0, false, rectangle),
                found_place ==> exists|k: int| 0 <= k < o.len() && le(rectangle, #[trigger] o[k]),
                forall|q: Rectangle| o.contains(q) && !le(rectangle, q) ==> self.points@.contains(q),
            decreases self.points.len() - i,
        {
            let p = self.points[i];
            if rectangle.width <= p.width && rectangle.height <= p.height {
                let ghost before = self.points@;
                if !found_place {
                    assert(le(rectangle, o[i as int]));
                    found_place = true;
                    self.points.set(i, rectangle);
                    assert forall|q: Rectangle| o.contains(q) && !le(rectangle, q) implies self.points@.contains(q) by {
                        let k = choose|k: int| 0 <= k < before.len() && before[k] == q;
                        assert(k != i);
                        assert(self.points@[k] == q);
                    }
                    assert(self.points@[i as int] == rectangle);
                    i += 1;
                } else {
                    self.points.swap_remove(i);
                    let ghost last = before.len() - 1;
                    assert forall|q: Rectangle| o.contains(q) && !le(rectangle, q) implies self.points@.contains(q) by {
                        let k = choose|k: int| 0 <= k < before.len() && before[k] == q;
                        assert(k != i);
                        if k == last {
                            assert(self.points@[i as int] == q);
                        } else {
                            assert(self.points@[k] == q);
                        }
                    }
                    assert forall|a: int, b: int|
                        0 <= a < self.points.len() && 0 <= b < self.points.len() && a != b
                            implies self.points@[a] != self.points@[b] by {
                        let a0 = if a == i { last } else { a };
                        let b0 = if b == i { last } else { b };
                        assert(self.points@[a] == before[a0]);
                        assert(self.points@[b] == before[b0]);
                    }
                    assert forall|k: int| i <= k < self.points.len() implies #[trigger] self.points@[k] != rectangle by {
                        if k == i {
                            assert(self.points@[k] == before[last]);
                        } else {
                            assert(self.points@[k] == before[k]);
                        }
                    }
                    assert forall|k: int|
                        0 <= k < self.points.len() implies self.points@[k] == rectangle || o.contains(
                            #[trigger] self.points@[k],
                        ) by {
                        if k == i {
                            assert(self.points@[k] == before[last]);
                        } else {
                            assert(self.points@[k] == before[k]);
                        }
                    }
                    assert(exists|k: int| 0 <= k < i && #[trigger] self.points@[k] == rectangle) by {
                        let k = choose|k: int| 0 <= k < i && #[trigger] before[k] == rectangle;
                        assert(self.points@[k] == before[k]);
                    }
                }
            } else {
                i += 1;
            }
        }
        let ghost mid = self.points@;
        if !found_place {
            self.points.push(rectangle);
        }
        assert forall|a: int, b: int|
            0 <= a < self.points.len() && 0 <= b < self.points.len() && a != b
                implies self.points@[a] != self.points@[b] by {
            if !found_place {
                if a < mid.len() && b < mid.len() {
                    assert(self.points@[a] == mid[a]);
                    assert(self.points@[b] == mid[b]);
                }
            }
        }
        assert forall|a: int, b: int|
            0 <= a < self.points.len() && 0 <= b < self.points.len() && self.points@[a] != self.points@[b]
                implies !le(self.points@[a], self.points@[b]) by {
            let pa = self.points@[a];
            let pb = self.points@[b];
            if !found_place {
                if a < mid.len() {
                    assert(pa == mid[a]);
                }
                if b < mid.len() {
                    assert(pb == mid[b]);
                }
            }
            if pa != rectangle && pb != rectangle {
                assert(o.contains(pa));
                assert(o.contains(pb));
                lemma_pareto_values(o, pa, pb);
            } else if pa == rectangle {
                assert(o.contains(pb));
                assert(!le(rectangle, pb));
            } else {
                assert(o.contains(pa));
                let k = choose|k: int| 0 <= k < o.len() && o[k] == pa;
                assert(!le(o[k], rectangle));
            }
        }
        proof { lemma_pareto_from_values(self.points@); }
        assert forall|q: Rectangle| self.points@.contains(q) <==> added(o, rectangle, q) by {
            if self.points@.contains(q) {
                let k = choose|k: int| 0 <= k < self.points.len() && self.points@[k] == q;
                if !found_place && k < mid.len() {
                    assert(self.points@[k] == mid[k]);
                }
            }
            if q == rectangle {
                if found_place {
                    let k = choose|k: int| 0 <= k < mid.len() && #[trigger] mid[k] == rectangle;
                    assert(self.points@[k] == q);
                } else {
                    assert(self.points@[mid.len() as int] == q);
                }
            } else if o.contains(q) && !le(rectangle, q) {
                let k = choose|k: int| 0 <= k < mid.len() && mid[k] == q;
                assert(self.points@[k] == q);
            }
        }
    }
}

impl ShapeFunction {
    /// The frontier of every shape that stacks a point of `a` with a point of
    /// `b` under the cut `v_or_h`.
    pub fn combine(a: &ShapeFunction, b: &ShapeFunction, v_or_h: ModuleNode) -> (r: ShapeFunction)
        requires
            is_cut(v_or_h),
            all_combinable(a.points@, b.points@),
        ensures
            r.wf(),
            frontier(r.points@, cross(a.points@, b.points@, v_or_h)),
            r.points@ == combine_rows(a.points@, b.points@, v_or_h, a.points@.len() as int),
    {
        let ghost sa = a.points@;
        let ghost sb = b.points@;
        let mut sf = ShapeFunction { points: Vec::new() };
        proof {
            lemma_cross_prefix_start(sa, sb, v_or_h);
        }
        let mut i: usize = 0;
        while i < a.points.len()
            invariant
                sa == a.points@,
                sb == b.points@,
                is_cut(v_or_h),
                all_combinable(sa, sb),
                0 <= i <= sa.len(),
                sf.wf(),
                frontier(sf.points@, cross_prefix(sa, sb, v_or_h, i as int, 0)),
                sf.points@ == combine_rows(sa, sb, v_or_h, i as int),
            decreases sa.len() - i,
        {
            let mut j: usize = 0;
            while j < b.points.len()
                invariant
                    sa == a.points@,
                    sb == b.points@,
                    is_cut(v_or_h),
                    all_combinable(sa, sb),
                    0 <= i < sa.len(),
                    0 <= j <= sb.len(),
                    sf.wf(),
                    frontier(sf.points@, cross_prefix(sa, sb, v_or_h, i as int, j as int)),
                    sf.points@ == combine_row(combine_rows(sa, sb, v_or_h, i as int), sa, sb, v_or_h, i as int, j as int),
                decreases sb.len() - j,
            {
                let r1 = a.points[i];
                let r2 = b.points[j];
                assert(combinable(sa[i as int], sb[j as int]));
                let c = Rectangle::combine(r1, r2, v_or_h);
                let ghost before = sf.points@;
                sf.add(c);
                proof {
                    lemma_add_frontier(before, sf.points@, c, cross_prefix(sa, sb, v_or_h, i as int, j as int));
                    lemma_cross_prefix_step(sa, sb, v_or_h, i as int, j as int);
                }
                j += 1;
            }
            proof {
                lemma_cross_prefix_row(sa, sb, v_or_h, i as int);
            }
            i += 1;
        }
        proof {
            lemma_cross_prefix_end(sa, sb, v_or_h);
        }
        sf
    }

    /// Finds a point of `a` and a point of `b` that stack under `v_or_h` to
    /// exactly `rect`, or `None` when no pair does.
    pub fn reconstruct(
        a: &ShapeFunction,
        b: &ShapeFunction,
        v_or_h: ModuleNode,
        rect: &Rectangle,
    ) -> (r: Option<(Rectangle, Rectangle)>)
        requires
            is_cut(v_or_h),
            all_combinable(a.points@, b.points@),
        ensures
            match r {
                Some((r1, r2)) => a.points@.contains(r1) && b.points@.contains(r2) && combine_spec(
                    r1,
                    r2,
                    v_or_h,
                ) == *rect && first_split(a.points@, b.points@, v_or_h, *rect, r1, r2),
                None => !cross(a.points@, b.points@, v_or_h).contains(*rect),
            },
    {
        let mut i: usize = 0;
        while i < a.points.len()
            invariant
                is_cut(v_or_h),
                all_combinable(a.points@, b.points@),
                0 <= i <= a.points.len(),
                forall|i2: int, j2: int|
                    0 <= i2 < i && 0 <= j2 < b.points.len() ==> combine_spec(
                        #[trigger] a.points@[i2],
                        #[trigger] b.points@[j2],
                        v_or_h,
                    ) != *rect,
            decreases a.points.len() - i,
        {
            let mut j: usize = 0;
            while j < b.points.len()
                invariant
                    is_cut(v_or_h),
                    all_combinable(a.points@, b.points@),
                    0 <= i < a.points.len(),
                    0 <= j <= b.points.len(),
                    forall|i2: int, j2: int|
                        0 <= i2 < i && 0 <= j2 < b.points.len() ==> combine_spec(
                            #[trigger] a.points@[i2],
                            #[trigger] b.points@[j2],
                            v_or_h,
                        ) != *rect,
                    forall|j2: int|
                        0 <= j2 < j ==> combine_spec(a.points@[i as int], #[trigger] b.points@[j2], v_or_h)
                            != *rect,
                decreases b.points.len() - j,
            {
                let r1 = a.points[i];
                let r2 = b.points[j];
                assert(combinable(a.points@[i as int], b.points@[j as int]));
                let combined = Rectangle::combine(r1, r2, v_or_h);
                if combined == *rect {
                    assert(a.points@[i as int] == r1);
                    assert(b.points@[j as int] == r2);
                    assert(first_split_at(a.points@, b.points@, v_or_h, *rect, i as int, j as int));
                    return Some((r1, r2));
                }
                j += 1;
            }
            i += 1;
        }
        None
    }
}

proof fn lemma_cross_prefix_start(a: Seq<Rectangle>, b: Seq<Rectangle>, o: ModuleNode)
    ensures
        frontier(Seq::<Rectangle>::empty(), cross_prefix(a, b, o, 0, 0)),
{
    assert(cross_prefix(a, b, o, 0, 0) =~= Set::<Rectangle>::empty());
}

proof fn lemma_cross_prefix_step(a: Seq<Rectangle>, b: Seq<Rectangle>, o: ModuleNode, i: int, j: int)
    requires
        0 <= i < a.len(),
        0 <= j < b.len(),
    ensures
        cross_prefix(a, b, o, i, j + 1) == cross_prefix(a, b, o, i, j).insert(
            combine_spec(a[i], b[j], o),
        ),
{
    let lhs = cross_prefix(a, b, o, i, j + 1);
    let rhs = cross_prefix(a, b, o, i, j).insert(combine_spec(a[i], b[j], o));
    assert forall|q: Rectangle| lhs.contains(q) implies rhs.contains(q) by {
        let (i2, j2) = choose|i2: int, j2: int|
            0 <= i2 < a.len() && 0 <= j2 < b.len() && (i2 < i || (i2 == i && j2 < j + 1)) && q
                == combine_spec(#[trigger] a[i2], #[trigger] b[j2], o);
        if !(i2 == i && j2 == j) {
            assert(cross_prefix(a, b, o, i, j).contains(q));
        }
    }
    assert forall|q: Rectangle| rhs.contains(q) implies lhs.contains(q) by {
        if q == combine_spec(a[i], b[j], o) {
            assert(0 <= i < a.len() && 0 <= j < b.len() && q == combine_spec(a[i], b[j], o));
        } else {
            let (i2, j2) = choose|i2: int, j2: int|
                0 <= i2 < a.len() && 0 <= j2 < b.len() && (i2 < i || (i2 == i && j2 < j)) && q
                    == combine_spec(#[trigger] a[i2], #[trigger] b[j2], o);
            assert(0 <= i2 < a.len() && 0 <= j2 < b.len() && (i2 < i || (i2 == i && j2 < j + 1)));
        }
    }
    assert(lhs =~= rhs);
}

proof fn lemma_cross_prefix_row(a: Seq<Rectangle>, b: Seq<Rectangle>, o: ModuleNode, i: int)
    ensures
        cross_prefix(a, b, o, i, b.len() as int) == cross_prefix(a, b, o, i + 1, 0),
{
    let lhs = cross_prefix(a, b, o, i, b.len() as int);
    let rhs = cross_prefix(a, b, o, i + 1, 0);
    assert forall|q: Rectangle| lhs.contains(q) implies rhs.contains(q) by {
        let (i2, j2) = choose|i2: int, j2: int|
            0 <= i2 < a.len() && 0 <= j2 < b.len() && (i2 < i || (i2 == i && j2 < b.len())) && q
                == combine_spec(#[trigger] a[i2], #[trigger] b[j2], o);
        assert(i2 < i + 1);
    }
    assert forall|q: Rectangle| rhs.contains(q) implies lhs.contains(q) by {
        let (i2, j2) = choose|i2: int, j2: int|
            0 <= i2 < a.len() && 0 <= j2 < b.len() && (i2 < i + 1 || (i2 == i + 1 && j2 < 0)) && q
                == combine_spec(#[trigger] a[i2], #[trigger] b[j2], o);
        assert(i2 < i || (i2 == i && j2 < b.len()));
    }
    assert(lhs =~= rhs);
}

proof fn lemma_cross_prefix_end(a: Seq<Rectangle>, b: Seq<Rectangle>, o: ModuleNode)
    ensures
        cross_prefix(a, b, o, a.len() as int, 0) == cross(a, b, o),
{
    let lhs = cross_prefix(a, b, o, a.len() as int, 0);
    let rhs = cross(a, b, o);
    assert forall|q: Rectangle| rhs.contains(q) implies lhs.contains(q) by {
        let (i2, j2) = choose|i2: int, j2: int|
            0 <= i2 < a.len() && 0 <= j2 < b.len() && q == combine_spec(#[trigger] a[i2], #[trigger] b[j2], o);
        assert(i2 < a.len());
    }
    assert(lhs =~= rhs);
}

impl Default for ShapeFunction {
    fn default() -> (r: ShapeFunction)
        ensures
            r.points@ == Seq::<Rectangle>::empty(),
    {
        ShapeFunction { points: Vec::new() }
    }
}

/// Two distinct points of a Pareto set are incomparable.
proof fn lemma_pareto_values(s: Seq<Rectangle>, p: Rectangle, q: Rectangle)
    requires
        pareto(s),
        s.contains(p),
        s.contains(q),
        p != q,
    ensures
        !le(p, q),
{
    let i = choose|i: int| 0 <= i < s.len() && s[i] == p;
    let j = choose|j: int| 0 <= j < s.len() && s[j] == q;
    assert(i != j);
    assert(!le(s[i], s[j]));
}

/// A sequence without repeated points whose distinct points are pairwise
/// incomparable is a Pareto set.
proof fn lemma_pareto_from_values(s: Seq<Rectangle>)
    requires
        forall|a: int, b: int| 0 <= a < s.len() && 0 <= b < s.len() && a != b ==> s[a] != s[b],
        forall|a: int, b: int|
            0 <= a < s.len() && 0 <= b < s.len() && s[a] != s[b] ==> !le(s[a], s[b]),
    ensures
        pareto(s),
{
    assert forall|i: int, j: int|
        0 <= i < s.len() && 0 <= j < s.len() && i != j implies !le(#[trigger] s[i], #[trigger] s[j]) by {
        assert(s[i] != s[j]);
    }
}

/// Offering a shape to a frontier gives the frontier of the candidates with
/// that shape added.
pub proof fn lemma_add_frontier(
    s: Seq<Rectangle>,
    t: Seq<Rectangle>,
    r: Rectangle,
    cands: Set<Rectangle>,
)
    requires
        frontier(s, cands),
        pareto(t),
        forall|q: Rectangle| t.contains(q) <==> added(s, r, q),
    ensures
        frontier(t, cands.insert(r)),
{
    assert forall|i: int| 0 <= i < t.len() implies cands.insert(r).contains(#[trigger] t[i]) by {
        assert(t.contains(t[i]));
        if t[i] != r {
            let k = choose|k: int| 0 <= k < s.len() && s[k] == t[i];
            assert(cands.contains(s[k]));
        }
    }
    assert forall|c: Rectangle| cands.insert(r).contains(c) implies dominated_in(t, c) by {
        if dominated_in(s, r) {
            let k = choose|k: int| 0 <= k < s.len() && le(#[trigger] s[k], r);
            if c == r {
                assert(s.contains(s[k]));
                assert(t.contains(s[k]));
                let m = choose|m: int| 0 <= m < t.len() && t[m] == s[k];
                assert(le(t[m], c));
            } else {
                let k2 = choose|k2: int| 0 <= k2 < s.len() && le(#[trigger] s[k2], c);
                assert(s.contains(s[k2]));
                assert(t.contains(s[k2]));
                let m = choose|m: int| 0 <= m < t.len() && t[m] == s[k2];
                assert(le(t[m], c));
            }
        } else {
            assert(t.contains(r));
            let mr = choose|m: int| 0 <= m < t.len() && t[m] == r;
            if c == r {
                assert(le(t[mr], c));
            } else {
                let k2 = choose|k2: int| 0 <= k2 < s.len() && le(#[trigger] s[k2], c);
                assert(s.contains(s[k2]));
                if le(r, s[k2]) {
                    assert(le(t[mr], c));
                } else {
                    assert(t.contains(s[k2]));
                    let m = choose|m: int| 0 <= m < t.len() && t[m] == s[k2];
                    assert(le(t[m], c));
                }
            }
        }
    }
}

/// The frontier of a set of candidates is unique: two frontiers of the same
/// candidates hold the same points.
pub proof fn lemma_frontier_unique(p: Seq<Rectangle>, q: Seq<Rectangle>, cands: Set<Rectangle>)
    requires
        frontier(p, cands),
        frontier(q, cands),
    ensures
        forall|x: Rectangle| p.contains(x) <==> q.contains(x),
{
    assert forall|x: Rectangle| p.contains(x) implies q.contains(x) by {
        lemma_frontier_half(p, q, cands, x);
    }
    assert forall|x: Rectangle| q.contains(x) implies p.contains(x) by {
        lemma_frontier_half(q, p, cands, x);
    }
}

proof fn lemma_frontier_half(p: Seq<Rectangle>, q: Seq<Rectangle>, cands: Set<Rectangle>, x: Rectangle)
    requires
        frontier(p, cands),
        frontier(q, cands),
        p.contains(x),
    ensures
        q.contains(x),
{
    let i = choose|i: int| 0 <= i < p.len() && p[i] == x;
    assert(cands.contains(p[i]));
    let j = choose|j: int| 0 <= j < q.len() && le(#[trigger] q[j], x);
    assert(cands.contains(q[j]));
    let k = choose|k: int| 0 <= k < p.len() && le(#[trigger] p[k], q[j]);
    if k != i {
        assert(!le(p[k], p[i]));
    }
    assert(q[j] == x);
}

/// A point lies on the frontier of `cands` exactly when it is a candidate
/// and no other candidate fits inside it.
pub proof fn lemma_frontier_minimal(p: Seq<Rectangle>, cands: Set<Rectangle>, x: Rectangle)
    requires
        frontier(p, cands),
    ensures
        p.contains(x) <==> (cands.contains(x) && forall|c: Rectangle|
            cands.contains(c) && le(c, x) ==> c == x),
{
    if p.contains(x) {
        let i = choose|i: int| 0 <= i < p.len() && p[i] == x;
        assert(cands.contains(p[i]));
        assert forall|c: Rectangle| cands.contains(c) && le(c, x) implies c == x by {
            let k = choose|k: int| 0 <= k < p.len() && le(#[trigger] p[k], c);
            if k != i {
                assert(!le(p[k], p[i]));
            }
        }
    }
    if cands.contains(x) && forall|c: Rectangle| cands.contains(c) && le(c, x) ==> c == x {
        let k = choose|k: int| 0 <= k < p.len() && le(#[trigger] p[k], x);
        assert(cands.contains(p[k]));
        assert(p[k] == x);
    }
}

} // verus!
