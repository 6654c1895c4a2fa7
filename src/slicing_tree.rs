//! The slicing tree: an arena of nodes built from a postfix expression, each
//! holding the shape function of its subtree, recomputed where marked dirty,
//! and the top-down reconstruction of module placements.

use vstd::prelude::*;
use vstd::arithmetic::div_mod::lemma_div_is_ordered_by_denominator;
use crate::geometry::{Rectangle, ModuleNode, Floorplan, Int, EXTENT_LIMIT, le, transpose_spec};
use crate::wirelength::plan_within_limit;
use crate::shape_function::{ShapeFunction, frontier, lemma_add_frontier, cross, all_combinable, combine_rows};
use crate::postfix::{
    stack_after, left_child, right_child, valid_postfix, span_size, prefix_ok, stack_shape,
    lemma_stack_shape, lemma_children, lemma_child_unique, lemma_leaf_span, lemma_span,
};
use vstd::arithmetic::mul::lemma_mul_inequality;
use vstd::arithmetic::div_mod::lemma_fundamental_div_mod;

verus! {

/// How a module may be shaped.
#[derive(Debug, Clone, Copy, PartialEq, Eq, Structural)]
pub enum ModuleShape {
    /// As given.
    Hard(),
    /// As given or turned by a quarter.
    Rotatable(),
    /// Any integer rectangle of the same area whose sides are at least the
    /// given length.
    AspectRatios(usize),
}

impl ModuleShape {
    /// Sets the minimum side length of the aspect-ratio shapes; other shapes
    /// are left as they are.
    pub fn set_min_module_length(&mut self, min_length: usize)
        ensures
            *old(self) is AspectRatios ==> *final(self) == ModuleShape::AspectRatios(min_length),
            !(*old(self) is AspectRatios) ==> *final(self) == *old(self),
    {
        if let ModuleShape::AspectRatios(_) = self {
            *self = ModuleShape::AspectRatios(min_length);
        }
    }
}

/// The smallest side that an aspect-ratio shape may have: at least one.
pub open spec fn min_side(min_length: usize) -> int {
    if min_length == 0 { 1 } else { min_length as int }
}

/// `a` is a side length of an integer rectangle of area `area` with the
/// shorter side `a`, at least `lo`.
pub open spec fn is_factor_side(area: int, lo: int, a: int) -> bool {
    lo <= a && 1 <= a && a <= area / a && area % a == 0
}

/// The integer rectangles of area `area` whose shorter side lies in
/// `lo..hi` and is at least `lo`, in both orientations.
pub open spec fn factor_shapes(area: int, lo: int, hi: int) -> Set<Rectangle> {
    Set::new(
        |q: Rectangle|
            exists|a: int|
                a < hi && #[trigger] is_factor_side(area, lo, a) && ((q.width == a && q.height == area / a) || (
                q.height == a && q.width == area / a)),
    )
}

/// The shapes that a module can take.
pub open spec fn leaf_cands(kind: ModuleShape, m: Rectangle) -> Set<Rectangle> {
    match kind {
        ModuleShape::Hard() => set![m],
        ModuleShape::Rotatable() => set![m, transpose_spec(m)],
        ModuleShape::AspectRatios(min_length) => {
            let f = factor_shapes(m.width * m.height, min_side(min_length), m.width * m.height + 1);
            if f == Set::<Rectangle>::empty() {
                set![m, transpose_spec(m)]
            } else {
                f
            }
        },
    }
}

/// The aspect-ratio shapes that `module_shape_function` lists, in order:
/// for each shorter side from `lo` up to below `a` that divides `area`, the
/// upright rectangle and then, unless it is a square, the lying one.
pub open spec fn factor_list(area: int, lo: int, a: int) -> Seq<Rectangle>
    decreases a - lo,
{
    if a <= lo {
        Seq::empty()
    } else {
        let p = factor_list(area, lo, a - 1);
        let c = a - 1;
        if is_factor_side(area, lo, c) {
            if c == area / c {
                p.push(Rectangle { width: c as Int, height: c as Int })
            } else {
                p.push(Rectangle { width: c as Int, height: (area / c) as Int }).push(
                    Rectangle { width: (area / c) as Int, height: c as Int },
                )
            }
        } else {
            p
        }
    }
}

/// The points of a module's shape function under the shape kind, in order.
pub open spec fn leaf_points(kind: ModuleShape, m: Rectangle) -> Seq<Rectangle> {
    match kind {
        ModuleShape::Hard() => seq![m],
        ModuleShape::Rotatable() => if transpose_spec(m) == m {
            seq![m]
        } else {
            seq![m, transpose_spec(m)]
        },
        ModuleShape::AspectRatios(min_length) => aspect_points(min_length, m),
    }
}

/// The points of a module's aspect-ratio shape function, in order.
pub open spec fn aspect_points(min_length: usize, m: Rectangle) -> Seq<Rectangle> {
    let area = m.width * m.height;
    let f = factor_list(area, min_side(min_length), area + 1);
    if f.len() == 0 {
        if transpose_spec(m) == m {
            seq![m]
        } else {
            seq![m, transpose_spec(m)]
        }
    } else {
        f
    }
}

proof fn lemma_factor_list_same(area: int, lo: int, a: int, k: int)
    requires
        lo <= a <= k,
        forall|c: int| a <= c < k ==> !#[trigger] is_factor_side(area, lo, c),
    ensures
        factor_list(area, lo, k) == factor_list(area, lo, a),
    decreases k - a,
{
    if k > a {
        lemma_factor_list_same(area, lo, a, k - 1);
        assert(!is_factor_side(area, lo, k - 1));
    }
}

/// Two shapes from different shorter sides that divide the area are
/// incomparable.
proof fn lemma_factors_incomparable(area: int, lo: int, a: int, a2: int, p: Rectangle, q: Rectangle)
    requires
        is_factor_side(area, lo, a),
        is_factor_side(area, lo, a2),
        a2 < a,
        (p.width == a && p.height == area / a) || (p.height == a && p.width == area / a),
        (q.width == a2 && q.height == area / a2) || (q.height == a2 && q.width == area / a2),
    ensures
        !le(p, q),
        !le(q, p),
{
    let b = area / a;
    let b2 = area / a2;
    lemma_fundamental_div_mod(area, a);
    lemma_fundamental_div_mod(area, a2);
    assert(b2 > b) by (nonlinear_arith)
        requires
            a * b == area,
            a2 * b2 == area,
            1 <= a2 < a,
            b >= 1,
            b2 >= 0,
    ;
}

/// A bound on `width + height` of every shape that a module can take.
pub open spec fn leaf_bound(kind: ModuleShape, m: Rectangle) -> int {
    if kind is AspectRatios && m.width * m.height + 1 > m.width + m.height {
        m.width * m.height + 1
    } else {
        m.width + m.height
    }
}

proof fn lemma_factor_bounds(area: int, a: int)
    requires
        1 <= a,
        a <= area / a,
        0 <= area,
    ensures
        a <= area,
        area / a <= area,
        a + area / a <= area + 1,
{
    lemma_div_is_ordered_by_denominator(area, 1, a);
    assert(area / 1 == area);
    if a >= 2 {
        lemma_div_is_ordered_by_denominator(area, 2, a);
        assert(2 * (area / 2) <= area) by {
            lemma_fundamental_div_mod(area, 2);
        }
    }
}

/// Every shape that a module can take fits its bound.
proof fn lemma_leaf_cands_bounded(kind: ModuleShape, m: Rectangle, q: Rectangle)
    requires
        leaf_cands(kind, m).contains(q),
    ensures
        q.width + q.height <= leaf_bound(kind, m),
{
    if let ModuleShape::AspectRatios(min_length) = kind {
        let area = m.width * m.height;
        let f = factor_shapes(area, min_side(min_length), area + 1);
        assert(0 <= m.width * m.height) by (nonlinear_arith)
            requires
                0 <= m.width,
                0 <= m.height,
        ;
        if f != Set::<Rectangle>::empty() {
            let a = choose|a: int|
                a < area + 1 && #[trigger] is_factor_side(area, min_side(min_length), a) && ((q.width == a && q.height
                    == area / a) || (q.height == a && q.width == area / a));
            lemma_factor_bounds(area, a);
        } else {
            assert(m.width * m.height >= 0) by (nonlinear_arith)
                requires
                    0 <= m.width,
                    0 <= m.height,
            ;
        }
    }
}

proof fn lemma_factor_step(area: int, lo: int, a: int)
    requires
        0 <= area <= Int::MAX,
        1 <= lo <= a,
    ensures
        is_factor_side(area, lo, a) ==> factor_shapes(area, lo, a + 1) == factor_shapes(area, lo, a).insert(
            Rectangle { width: a as Int, height: (area / a) as Int },
        ).insert(Rectangle { width: (area / a) as Int, height: a as Int }),
        !is_factor_side(area, lo, a) ==> factor_shapes(area, lo, a + 1) == factor_shapes(area, lo, a),
{
    let lhs = factor_shapes(area, lo, a + 1);
    if is_factor_side(area, lo, a) {
        lemma_factor_bounds(area, a);
        let upright = Rectangle { width: a as Int, height: (area / a) as Int };
        let lying = Rectangle { width: (area / a) as Int, height: a as Int };
        let rhs = factor_shapes(area, lo, a).insert(upright).insert(lying);
        assert forall|q: Rectangle| lhs.contains(q) implies rhs.contains(q) by {
            let a2 = choose|a2: int|
                a2 < a + 1 && #[trigger] is_factor_side(area, lo, a2) && ((q.width == a2 && q.height == area / a2) || (
                q.height == a2 && q.width == area / a2));
            if a2 < a {
                assert(factor_shapes(area, lo, a).contains(q));
            }
        }
        assert forall|q: Rectangle| rhs.contains(q) implies lhs.contains(q) by {
            if q == upright || q == lying {
                assert(is_factor_side(area, lo, a));
            } else {
                let a2 = choose|a2: int|
                    a2 < a && #[trigger] is_factor_side(area, lo, a2) && ((q.width == a2 && q.height == area / a2)
                        || (q.height == a2 && q.width == area / a2));
                assert(a2 < a + 1);
            }
        }
        assert(lhs =~= rhs);
    } else {
        let rhs = factor_shapes(area, lo, a);
        assert forall|q: Rectangle| lhs.contains(q) implies rhs.contains(q) by {
            let a2 = choose|a2: int|
                a2 < a + 1 && #[trigger] is_factor_side(area, lo, a2) && ((q.width == a2 && q.height == area / a2) || (
                q.height == a2 && q.width == area / a2));
            assert(a2 != a);
        }
        assert(lhs =~= rhs);
    }
}

/// Past the square root no side is the shorter one.
proof fn lemma_factor_done(area: int, lo: int, a: int)
    requires
        0 <= area,
        1 <= lo <= a,
        a > area / a,
    ensures
        factor_shapes(area, lo, a) == factor_shapes(area, lo, area + 1),
{
    let lhs = factor_shapes(area, lo, a);
    let rhs = factor_shapes(area, lo, area + 1);
    assert forall|q: Rectangle| lhs.contains(q) implies rhs.contains(q) by {
        let a2 = choose|a2: int|
            a2 < a && #[trigger] is_factor_side(area, lo, a2) && ((q.width == a2 && q.height == area / a2) || (
            q.height == a2 && q.width == area / a2));
        lemma_factor_bounds(area, a2);
    }
    assert forall|q: Rectangle| rhs.contains(q) implies lhs.contains(q) by {
        let a2 = choose|a2: int|
            a2 < area + 1 && #[trigger] is_factor_side(area, lo, a2) && ((q.width == a2 && q.height == area / a2)
                || (q.height == a2 && q.width == area / a2));
        if a2 >= a {
            lemma_div_is_ordered_by_denominator(area, a, a2);
        }
    }
    assert(lhs =~= rhs);
}

/// The shape function of a module under the shape kind `kind`.
#[verifier::spinoff_prover]
pub fn module_shape_function(kind: ModuleShape, module: Rectangle) -> (r: ShapeFunction)
    requires
        module.width + module.height <= EXTENT_LIMIT,
    ensures
        r.wf(),
        frontier(r.points@, leaf_cands(kind, module)),
        forall|i: int| 0 <= i < r.points@.len() ==> #[trigger] r.points@[i].width + r.points@[i].height <= leaf_bound(kind, module),
        kind is Hard ==> r.points@ == seq![module],
        kind is AspectRatios ==> r.points@ == aspect_points(kind->AspectRatios_0, module),
        r.points@ == leaf_points(kind, module),
        kind is Rotatable ==> r.points@ == if transpose_spec(module) == module {
            seq![module]
        } else {
            seq![module, transpose_spec(module)]
        },
{
    let mut sf = ShapeFunction { points: Vec::new() };
    assert(frontier(sf.points@, Set::<Rectangle>::empty()));
    match kind {
        ModuleShape::Hard() => {
            sf.add(module);
            assert(sf.points@ =~= seq![module]);
            proof {
                lemma_add_frontier(Seq::empty(), sf.points@, module, Set::empty());
                assert(Set::<Rectangle>::empty().insert(module) =~= set![module]);
            }
        },
        ModuleShape::Rotatable() => {
            sf.add(module);
            let ghost s1 = sf.points@;
            assert(s1 =~= seq![module]);
            proof {
                if transpose_spec(module) == module {
                    assert(le(s1[0], transpose_spec(module)));
                }
            }
            sf.add(module.transpose());
            assert(transpose_spec(module) != module ==> sf.points@ =~= seq![module, transpose_spec(module)]);
            proof {
                lemma_add_frontier(Seq::empty(), s1, module, Set::empty());
                lemma_add_frontier(s1, sf.points@, transpose_spec(module), Set::empty().insert(module));
                assert(Set::<Rectangle>::empty().insert(module).insert(transpose_spec(module)) =~= set![module, transpose_spec(module)]);
            }
        },
        ModuleShape::AspectRatios(min_length) => {
            let w = module.width;
            let h = module.height;
            assert(w * h <= EXTENT_LIMIT * EXTENT_LIMIT) by (nonlinear_arith)
                requires
                    w + h <= EXTENT_LIMIT,
            ;
            let area: Int = w * h;
            let lo: Int = if min_length == 0 { 1 } else { min_length as Int };
            let mut a: Int = lo;
            proof {
                assert(factor_shapes(area as int, lo as int, lo as int) =~= Set::<Rectangle>::empty());
            }
            while a <= area / a
                invariant
                    1 <= lo <= a,
                    lo == min_side(min_length),
                    area == w * h,
                    area <= EXTENT_LIMIT * EXTENT_LIMIT,
                    sf.wf(),
                    frontier(sf.points@, factor_shapes(area as int, lo as int, a as int)),
                    sf.points@ == factor_list(area as int, lo as int, a as int),
                    a == lo || a <= area + 1,
                decreases area + 1 - a,
            {
                proof {
                    lemma_factor_bounds(area as int, a as int);
                    lemma_factor_step(area as int, lo as int, a as int);
                }
                if area % a == 0 {
                    let b = area / a;
                    let ghost s0 = sf.points@;
                    let upright = Rectangle { width: a, height: b };
                    proof {
                        assert(is_factor_side(area as int, lo as int, a as int));
                        assert forall|k: int| 0 <= k < s0.len() implies !le(upright, #[trigger] s0[k]) && !le(s0[k], upright) by {
                            assert(factor_shapes(area as int, lo as int, a as int).contains(s0[k]));
                            let a2 = choose|a2: int|
                                a2 < a && #[trigger] is_factor_side(area as int, lo as int, a2) && ((s0[k].width == a2
                                    && s0[k].height == (area as int) / a2) || (s0[k].height == a2 && s0[k].width == (area as int) / a2));
                            lemma_factors_incomparable(area as int, lo as int, a as int, a2, upright, s0[k]);
                        }
                    }
                    sf.add(upright);
                    let ghost s1 = sf.points@;
                    assert(s1 == s0.push(upright));
                    let lying = Rectangle { width: b, height: a };
                    proof {
                        if a != b {
                            assert forall|k: int| 0 <= k < s1.len() implies !le(lying, #[trigger] s1[k]) && !le(s1[k], lying) by {
                                if k < s0.len() {
                                    assert(s1[k] == s0[k]);
                                    assert(factor_shapes(area as int, lo as int, a as int).contains(s0[k]));
                                    let a2 = choose|a2: int|
                                        a2 < a && #[trigger] is_factor_side(area as int, lo as int, a2) && ((s0[k].width == a2
                                            && s0[k].height == (area as int) / a2) || (s0[k].height == a2 && s0[k].width == (area as int) / a2));
                                    lemma_factors_incomparable(area as int, lo as int, a as int, a2, lying, s0[k]);
                                }
                            }
                        } else {
                            assert(le(s1[s1.len() - 1], lying));
                        }
                    }
                    sf.add(lying);
                    proof {
                        if a != b {
                            assert(sf.points@ == s1.push(lying));
                        }
                        assert(sf.points@ =~= factor_list(area as int, lo as int, a as int + 1));
                    }
                    proof {
                        let c0 = factor_shapes(area as int, lo as int, a as int);
                        lemma_add_frontier(s0, s1, upright, c0);
                        lemma_add_frontier(s1, sf.points@, lying, c0.insert(upright));
                    }
                }
                a = a + 1;
            }
            proof {
                lemma_factor_done(area as int, lo as int, a as int);
                assert forall|c: int| a <= c < area + 1 implies !#[trigger] is_factor_side(area as int, lo as int, c) by {
                    if is_factor_side(area as int, lo as int, c) {
                        lemma_div_is_ordered_by_denominator(area as int, a as int, c);
                    }
                }
                if a <= area + 1 {
                    lemma_factor_list_same(area as int, lo as int, a as int, area as int + 1);
                } else {
                    assert(factor_list(area as int, lo as int, area as int + 1) =~= Seq::<Rectangle>::empty());
                }
            }
            if sf.points.len() == 0 {
                proof {
                    let f = factor_shapes(area as int, lo as int, area as int + 1);
                    if exists|q: Rectangle| f.contains(q) {
                        let q = choose|q: Rectangle| f.contains(q);
                        assert(!crate::shape_function::dominated_in(sf.points@, q));
                    }
                    assert(f =~= Set::<Rectangle>::empty());
                }
                sf.add(module);
                let ghost s1 = sf.points@;
                assert(s1 =~= seq![module]);
                proof {
                    if transpose_spec(module) == module {
                        assert(le(s1[0], transpose_spec(module)));
                    }
                }
                sf.add(module.transpose());
                assert(transpose_spec(module) != module ==> sf.points@ =~= seq![module, transpose_spec(module)]);
                proof {
                    lemma_add_frontier(Seq::empty(), s1, module, Set::empty());
                    lemma_add_frontier(s1, sf.points@, transpose_spec(module), Set::empty().insert(module));
                    assert(Set::<Rectangle>::empty().insert(module).insert(transpose_spec(module)) =~= set![module, transpose_spec(module)]);
                }
            } else {
                proof {
                    let f = factor_shapes(area as int, lo as int, area as int + 1);
                    assert(f.contains(sf.points@[0]));
                }
            }
        },
    }
    assert forall|i: int| 0 <= i < sf.points@.len() implies #[trigger] sf.points@[i].width + sf.points@[i].height <= leaf_bound(kind, module) by {
        assert(leaf_cands(kind, module).contains(sf.points@[i]));
        lemma_leaf_cands_bounded(kind, module, sf.points@[i]);
    }
    sf
}


/// No parent: the mark of the root.
pub const NO_PARENT: usize = usize::MAX;

/// The module id of a module token.
pub open spec fn module_id(t: ModuleNode) -> int {
    match t {
        ModuleNode::Module(id) => id as int,
        _ => 0,
    }
}

/// The share of the extent limit that one token of an expression of `len`
/// tokens may use.
pub open spec fn unit(len: int) -> int {
    EXTENT_LIMIT as int / len
}

/// The modules that the expression names exist, and each fits its share of
/// the extent limit.
pub open spec fn expression_ok(s: Seq<ModuleNode>, ms: Seq<Rectangle>, kind: ModuleShape) -> bool {
    &&& valid_postfix(s)
    &&& forall|k: int| 0 <= k < s.len() && (#[trigger] s[k] is Module) ==> module_id(s[k]) < ms.len()
    &&& forall|id: int|
        0 <= id < ms.len() ==> #[trigger] ms[id].width + ms[id].height <= EXTENT_LIMIT && leaf_bound(kind, ms[id])
            <= unit(s.len() as int)
}

/// A node of the slicing tree: its operands (equal for a module), its shape
/// function and its token.
#[derive(Debug)]
pub struct SlicingTreeNode {
    pub left: usize,
    pub right: usize,
    pub shape: ShapeFunction,
    pub module_type: ModuleNode,
}

/// A slicing tree stored as an arena indexed by expression position.
#[derive(Debug)]
pub struct SlicingTree {
    pub root: usize,
    pub nodes: Vec<SlicingTreeNode>,
    /// The parent of each node, or `NO_PARENT`.
    pub parent: Vec<usize>,
    /// The lower left corner, rectangle and token of each node.
    pub node_placement: Vec<(Int, Int, Rectangle, ModuleNode)>,
    /// The lower left corner and rectangle of each module.
    pub placement: Floorplan,
    /// The nodes whose shape functions must be recomputed.
    pub update: Vec<bool>,
    pub module_shape: ModuleShape,
}

/// Node `k` of `nodes` holds the token of position `k` and the frontier of
/// its subtree's shapes, computed from its operands.
#[verifier::opaque]
pub open spec fn node_ok_in(
    nodes: Seq<SlicingTreeNode>,
    kind: ModuleShape,
    s: Seq<ModuleNode>,
    ms: Seq<Rectangle>,
    k: int,
) -> bool {
    let nd = nodes[k];
    let pts = nd.shape.points@;
    &&& nd.module_type == s[k]
    &&& nd.shape.wf()
    &&& forall|i: int|
        0 <= i < pts.len() ==> #[trigger] pts[i].width + pts[i].height <= span_size(s, k) * unit(s.len() as int)
    &&& if s[k] is Module {
        nd.left == nd.right && frontier(pts, leaf_cands(kind, ms[module_id(s[k])])) && pts == leaf_points(
            kind,
            ms[module_id(s[k])],
        )
    } else {
        nd.left == left_child(s, k) && nd.right == right_child(s, k) && frontier(
            pts,
            cross(nodes[nd.left as int].shape.points@, nodes[nd.right as int].shape.points@, s[k]),
        ) && pts == combine_rows(
            nodes[nd.left as int].shape.points@,
            nodes[nd.right as int].shape.points@,
            s[k],
            nodes[nd.left as int].shape.points@.len() as int,
        )
    }
}

/// The operands of the cut at `k` name it as their parent.
pub open spec fn links_ok_in(parent: Seq<usize>, s: Seq<ModuleNode>, k: int) -> bool {
    !(s[k] is Module) ==> parent[left_child(s, k)] == k && parent[right_child(s, k)] == k
}

impl SlicingTree {
    /// The arrays agree in length and parents lie above their children.
    pub open spec fn wf(&self) -> bool {
        let n = self.nodes@.len();
        &&& 1 <= n < usize::MAX
        &&& self.parent@.len() == n
        &&& self.update@.len() == n
        &&& self.node_placement@.len() == n
        &&& forall|k: int| 0 <= k < n ==> #[trigger] self.parent@[k] == NO_PARENT || (k < self.parent@[k] < n)
    }

    /// Node `k` holds the token of position `k` and the frontier of its
    /// subtree's shapes, computed from its operands.
    pub open spec fn node_ok(&self, s: Seq<ModuleNode>, ms: Seq<Rectangle>, k: int) -> bool {
        node_ok_in(self.nodes@, self.module_shape, s, ms, k)
    }

    /// The operands of the cut at `k` name it as their parent.
    pub open spec fn links_ok(&self, s: Seq<ModuleNode>, k: int) -> bool {
        links_ok_in(self.parent@, s, k)
    }

    /// The whole tree is the evaluation of `s` over the modules `ms`.
    pub open spec fn consistent(&self, s: Seq<ModuleNode>, ms: Seq<Rectangle>) -> bool {
        let n = self.nodes@.len();
        &&& self.wf()
        &&& s.len() == n
        &&& expression_ok(s, ms, self.module_shape)
        &&& self.root == n - 1
        &&& self.parent@[n - 1] == NO_PARENT
        &&& forall|k: int| 0 <= k < n ==> #[trigger] self.node_ok(s, ms, k) && self.links_ok(s, k)
    }

    /// Every clean node is up to date for `s`, and so are its operands.
    pub open spec fn clean_consistent(&self, s: Seq<ModuleNode>, ms: Seq<Rectangle>) -> bool {
        forall|k: int|
            0 <= k < self.nodes@.len() && !(#[trigger] self.update@[k]) ==> self.node_ok(s, ms, k) && self.links_ok(s, k)
                && (!(s[k] is Module) ==> !self.update@[left_child(s, k)] && !self.update@[right_child(s, k)])
    }
}

/// Stacking two subtrees' shapes stays within their shares of the limit.
proof fn lemma_combine_bound(
    a: Seq<Rectangle>,
    b: Seq<Rectangle>,
    o: ModuleNode,
    sa: int,
    sb: int,
    len: int,
)
    requires
        1 <= sa,
        1 <= sb,
        sa + sb < len,
        forall|i: int| 0 <= i < a.len() ==> #[trigger] a[i].width + a[i].height <= sa * unit(len),
        forall|i: int| 0 <= i < b.len() ==> #[trigger] b[i].width + b[i].height <= sb * unit(len),
    ensures
        all_combinable(a, b),
        forall|q: Rectangle| cross(a, b, o).contains(q) ==> q.width + q.height <= (sa + sb + 1) * unit(len),
{
    let u = unit(len);
    assert(u >= 0);
    lemma_fundamental_div_mod(EXTENT_LIMIT as int, len);
    assert(len * u <= EXTENT_LIMIT) by (nonlinear_arith)
        requires
            EXTENT_LIMIT == len * u + (EXTENT_LIMIT as int % len),
            0 <= EXTENT_LIMIT as int % len,
    ;
    lemma_mul_inequality(sa + sb, len, u);
    assert(sa * u + sb * u == (sa + sb) * u) by (nonlinear_arith);
    assert((sa + sb) * u <= (sa + sb + 1) * u) by (nonlinear_arith)
        requires
            u >= 0,
    ;
    assert forall|q: Rectangle| cross(a, b, o).contains(q) implies q.width + q.height <= (sa + sb + 1) * unit(len) by {
        let (i, j) = choose|i: int, j: int|
            0 <= i < a.len() && 0 <= j < b.len() && q == crate::geometry::combine_spec(#[trigger] a[i], #[trigger] b[j], o);
        assert(a[i].width + a[i].height <= sa * u);
        assert(b[j].width + b[j].height <= sb * u);
    }
}


/// Whether a node is up to date depends only on it, its operands' nodes and
/// the shape kind.
proof fn lemma_node_ok_frame(
    n1: Seq<SlicingTreeNode>,
    n2: Seq<SlicingTreeNode>,
    kind: ModuleShape,
    s: Seq<ModuleNode>,
    ms: Seq<Rectangle>,
    k: int,
)
    requires
        node_ok_in(n1, kind, s, ms, k),
        0 <= k < n1.len(),
        0 <= k < n2.len(),
        n1[k] == n2[k],
        !(s[k] is Module) ==> 0 <= n1[k].left < n1.len() && 0 <= n1[k].right < n1.len() && n1[k].left < n2.len()
            && n1[k].right < n2.len() && n1[n1[k].left as int] == n2[n1[k].left as int] && n1[n1[k].right as int]
            == n2[n1[k].right as int],
    ensures
        node_ok_in(n2, kind, s, ms, k),
{
    reveal(node_ok_in);
}

/// What an up-to-date node tells.
proof fn lemma_node_ok_facts(t: &SlicingTree, s: Seq<ModuleNode>, ms: Seq<Rectangle>, k: int)
    requires
        t.node_ok(s, ms, k),
    ensures
        t.nodes@[k].module_type == s[k],
        t.nodes@[k].shape.wf(),
        forall|i: int|
            0 <= i < t.nodes@[k].shape.points@.len() ==> #[trigger] t.nodes@[k].shape.points@[i].width
                + t.nodes@[k].shape.points@[i].height <= span_size(s, k) * unit(s.len() as int),
        s[k] is Module ==> t.nodes@[k].left == t.nodes@[k].right && frontier(
            t.nodes@[k].shape.points@,
            leaf_cands(t.module_shape, ms[module_id(s[k])]),
        ) && t.nodes@[k].shape.points@ == leaf_points(t.module_shape, ms[module_id(s[k])]),
        !(s[k] is Module) ==> t.nodes@[k].left == left_child(s, k) && t.nodes@[k].right == right_child(s, k)
            && frontier(
            t.nodes@[k].shape.points@,
            cross(
                t.nodes@[t.nodes@[k].left as int].shape.points@,
                t.nodes@[t.nodes@[k].right as int].shape.points@,
                s[k],
            ),
        ) && t.nodes@[k].shape.points@ == combine_rows(
            t.nodes@[t.nodes@[k].left as int].shape.points@,
            t.nodes@[t.nodes@[k].right as int].shape.points@,
            s[k],
            t.nodes@[t.nodes@[k].left as int].shape.points@.len() as int,
        ),
{
    reveal(node_ok_in);
}

proof fn lemma_node_ok_facts_in(nodes: Seq<SlicingTreeNode>, kind: ModuleShape, s: Seq<ModuleNode>, ms: Seq<Rectangle>, k: int)
    requires
        node_ok_in(nodes, kind, s, ms, k),
    ensures
        nodes[k].module_type == s[k],
        !(s[k] is Module) ==> nodes[k].left == left_child(s, k) && nodes[k].right == right_child(s, k),
        s[k] is Module ==> nodes[k].left == nodes[k].right,
{
    reveal(node_ok_in);
}

/// An up-to-date node carries the token of its position.
pub proof fn lemma_node_ok_token(t: &SlicingTree, s: Seq<ModuleNode>, ms: Seq<Rectangle>, k: int)
    requires
        t.node_ok(s, ms, k),
    ensures
        t.nodes@[k].module_type == s[k],
{
    reveal(node_ok_in);
}

/// The conditions of `node_ok`, gathered.
proof fn lemma_node_ok_intro(t: &SlicingTree, s: Seq<ModuleNode>, ms: Seq<Rectangle>, k: int)
    requires
        t.nodes@[k].module_type == s[k],
        t.nodes@[k].shape.wf(),
        forall|i: int|
            0 <= i < t.nodes@[k].shape.points@.len() ==> #[trigger] t.nodes@[k].shape.points@[i].width
                + t.nodes@[k].shape.points@[i].height <= span_size(s, k) * unit(s.len() as int),
        s[k] is Module ==> t.nodes@[k].left == t.nodes@[k].right && frontier(
            t.nodes@[k].shape.points@,
            leaf_cands(t.module_shape, ms[module_id(s[k])]),
        ) && t.nodes@[k].shape.points@ == leaf_points(t.module_shape, ms[module_id(s[k])]),
        !(s[k] is Module) ==> t.nodes@[k].left == left_child(s, k) && t.nodes@[k].right == right_child(s, k)
            && frontier(
            t.nodes@[k].shape.points@,
            cross(
                t.nodes@[t.nodes@[k].left as int].shape.points@,
                t.nodes@[t.nodes@[k].right as int].shape.points@,
                s[k],
            ),
        ) && t.nodes@[k].shape.points@ == combine_rows(
            t.nodes@[t.nodes@[k].left as int].shape.points@,
            t.nodes@[t.nodes@[k].right as int].shape.points@,
            s[k],
            t.nodes@[t.nodes@[k].left as int].shape.points@.len() as int,
        ),
    ensures
        t.node_ok(s, ms, k),
{
    reveal(node_ok_in);
}


/// Linking the operands of the cut at `idx` keeps every other cut's links.
proof fn lemma_links_step(pb: Seq<usize>, pa: Seq<usize>, s: Seq<ModuleNode>, upd: Seq<bool>, idx: int)
    requires
        s.len() < usize::MAX,
        prefix_ok(s, s.len() as int),
        0 <= idx < s.len(),
        !(s[idx] is Module),
        pb.len() == s.len(),
        pa == pb.update(left_child(s, idx), idx as usize).update(right_child(s, idx), idx as usize),
        0 <= left_child(s, idx) < s.len(),
        0 <= right_child(s, idx) < s.len(),
        forall|k: int| 0 <= k < idx ==> #[trigger] links_ok_in(pb, s, k),
        forall|k: int| idx < k < s.len() && !(#[trigger] upd[k]) ==> links_ok_in(pb, s, k),
    ensures
        forall|k: int| 0 <= k <= idx ==> #[trigger] links_ok_in(pa, s, k),
        forall|k: int| idx < k < s.len() && !(#[trigger] upd[k]) ==> links_ok_in(pa, s, k),
{
    assert forall|k: int| 0 <= k <= idx implies #[trigger] links_ok_in(pa, s, k) by {
        if k < idx {
            lemma_links_keep(pb, pa, s, k, idx);
        }
    }
    assert forall|k: int| idx < k < s.len() && !(#[trigger] upd[k]) implies links_ok_in(pa, s, k) by {
        lemma_links_keep(pb, pa, s, k, idx);
    }
}

proof fn lemma_links_keep(pb: Seq<usize>, pa: Seq<usize>, s: Seq<ModuleNode>, k: int, idx: int)
    requires
        s.len() < usize::MAX,
        prefix_ok(s, s.len() as int),
        0 <= idx < s.len(),
        0 <= k < s.len(),
        k != idx,
        !(s[idx] is Module),
        pb.len() == s.len(),
        pa == pb.update(left_child(s, idx), idx as usize).update(right_child(s, idx), idx as usize),
        links_ok_in(pb, s, k),
    ensures
        links_ok_in(pa, s, k),
{
    let l = left_child(s, idx);
    let r = right_child(s, idx);
    assert(prefix_ok(s, idx + 1));
    lemma_children(s, idx);
    if !(s[k] is Module) {
        let lk = left_child(s, k);
        let rk = right_child(s, k);
        assert(prefix_ok(s, k + 1));
        lemma_children(s, k);
        if k < idx {
            assert(prefix_ok(s, idx + 1));
            lemma_child_unique(s, k, idx, lk);
            lemma_child_unique(s, k, idx, rk);
        } else {
            assert(prefix_ok(s, k + 1));
            lemma_child_unique(s, idx, k, l);
            lemma_child_unique(s, idx, k, r);
        }
        assert(pa[lk] == pb[lk]);
        assert(pa[rk] == pb[rk]);
    }
}

/// Writing node `idx` leaves every earlier node up to date.
proof fn lemma_nodes_prefix_frame(
    before: Seq<SlicingTreeNode>,
    after: Seq<SlicingTreeNode>,
    kind: ModuleShape,
    s: Seq<ModuleNode>,
    ms: Seq<Rectangle>,
    idx: int,
)
    requires
        valid_postfix(s),
        0 <= idx < s.len(),
        before.len() == s.len(),
        after.len() == s.len(),
        forall|k: int| 0 <= k < s.len() && k != idx ==> before[k] == after[k],
        forall|k: int| 0 <= k < idx ==> #[trigger] node_ok_in(before, kind, s, ms, k),
    ensures
        forall|k: int| 0 <= k < idx ==> #[trigger] node_ok_in(after, kind, s, ms, k),
{
    assert forall|k: int| 0 <= k < idx implies #[trigger] node_ok_in(after, kind, s, ms, k) by {
        assert(node_ok_in(before, kind, s, ms, k));
        assert(prefix_ok(s, k + 1));
        if !(s[k] is Module) {
            lemma_children(s, k);
            lemma_node_ok_facts_in(before, kind, s, ms, k);
        }
        lemma_node_ok_frame(before, after, kind, s, ms, k);
    }
}

impl SlicingTree {
    /// Evaluates the postfix expression `solution` over `modules` in one pass
    /// with an explicit stack. Nodes marked dirty get their shape function
    /// rebuilt, from the module or by combining their operands, and their
    /// operands' parent links set; clean nodes keep theirs. Afterwards no node
    /// is marked and the root is the last position.
    #[verifier::spinoff_prover]
    pub fn recompute(&mut self, solution: &Vec<ModuleNode>, modules: &Vec<Rectangle>)
        requires
            old(self).wf(),
            solution@.len() == old(self).nodes@.len(),
            expression_ok(solution@, modules@, old(self).module_shape),
            old(self).clean_consistent(solution@, modules@),
        ensures
            final(self).consistent(solution@, modules@),
            forall|k: int| 0 <= k < final(self).update@.len() ==> !#[trigger] final(self).update@[k],
            forall|k: int|
                0 <= k < final(self).nodes@.len() && !old(self).update@[k] ==> #[trigger] final(self).nodes@[k]
                    == old(self).nodes@[k],
            final(self).module_shape == old(self).module_shape,
            final(self).placement == old(self).placement,
            final(self).node_placement == old(self).node_placement,
    {
        let ghost s = solution@;
        let ghost ms = modules@;
        let ghost old_nodes = self.nodes@;
        let ghost kind = self.module_shape;
        let ghost upd = self.update@;
        let n = solution.len();
        let mut stack: Vec<usize> = Vec::new();
        let mut index: usize = 0;
        while index < n
            invariant
                self.wf(),
                n == s.len(),
                s == solution@,
                ms == modules@,
                self.nodes@.len() == n,
                self.module_shape == kind,
                self.placement == old(self).placement,
                self.node_placement == old(self).node_placement,
                self.update@ == upd,
                expression_ok(s, ms, kind),
                old_nodes.len() == n,
                0 <= index <= n,
                stack@ == stack_after(s, index as int),
                forall|k: int| 0 <= k < index ==> #[trigger] node_ok_in(self.nodes@, kind, s, ms, k),
                forall|k: int| 0 <= k < index ==> #[trigger] links_ok_in(self.parent@, s, k),
                forall|k: int| index <= k < n ==> #[trigger] self.nodes@[k] == old_nodes[k],
                forall|k: int| 0 <= k < n && !upd[k] ==> #[trigger] self.nodes@[k] == old_nodes[k],
                forall|k: int|
                    index <= k < n && !(#[trigger] upd[k]) ==> node_ok_in(old_nodes, kind, s, ms, k) && links_ok_in(
                        self.parent@,
                        s,
                        k,
                    ) && (!(s[k] is Module) ==> !upd[left_child(s, k)] && !upd[right_child(s, k)]),
            decreases n - index,
        {
            proof {
                assert(prefix_ok(s, index as int + 1));
                lemma_stack_shape(s, index as int);
                lemma_span(s, index as int);
            }
            let ghost before = self.nodes@;
            match solution[index] {
                ModuleNode::Module(id) => {
                    stack.push(index);
                    assert(stack@ =~= stack_after(s, index as int + 1));
                    if self.update[index] {
                        assert(ms[id as int].width + ms[id as int].height <= EXTENT_LIMIT);
                        let sf = module_shape_function(self.module_shape, modules[id]);
                        proof {
                            lemma_leaf_span(s, index as int);
                            assert(leaf_bound(kind, ms[id as int]) <= unit(n as int));
                        }
                        self.nodes.set(index, SlicingTreeNode { left: 0, right: 0, shape: sf, module_type: solution[index] });
                        proof {
                            lemma_node_ok_intro(self, s, ms, index as int);
                        }
                    } else {
                        proof {
                            lemma_node_ok_frame(old_nodes, self.nodes@, kind, s, ms, index as int);
                        }
                    }
                },
                _ => {
                    proof {
                        lemma_children(s, index as int);
                    }
                    let right = stack.pop().unwrap();
                    let left = stack.pop().unwrap();
                    stack.push(index);
                    assert(stack@ =~= stack_after(s, index as int + 1));
                    assert(left as int == left_child(s, index as int));
                    assert(right as int == right_child(s, index as int));
                    if self.update[index] {
                        proof {
                            lemma_node_ok_facts(self, s, ms, left as int);
                            lemma_node_ok_facts(self, s, ms, right as int);
                            lemma_combine_bound(
                                self.nodes@[left as int].shape.points@,
                                self.nodes@[right as int].shape.points@,
                                s[index as int],
                                span_size(s, left as int),
                                span_size(s, right as int),
                                n as int,
                            );
                        }
                        let combined = ShapeFunction::combine(&self.nodes[left].shape, &self.nodes[right].shape, solution[index]);
                        proof {
                            assert forall|i: int| 0 <= i < combined.points@.len() implies #[trigger] combined.points@[i].width
                                + combined.points@[i].height <= span_size(s, index as int) * unit(n as int) by {
                                assert(cross(before[left as int].shape.points@, before[right as int].shape.points@, s[index as int]).contains(combined.points@[i]));
                            }
                        }
                        let ghost pb = self.parent@;
                        self.parent.set(left, index);
                        self.parent.set(right, index);
                        self.nodes.set(index, SlicingTreeNode { left, right, shape: combined, module_type: solution[index] });
                        proof {
                            lemma_node_ok_intro(self, s, ms, index as int);
                            lemma_links_step(pb, self.parent@, s, upd, index as int);
                        }
                    } else {
                        proof {
                            let k = index as int;
                            lemma_node_ok_facts_in(old_nodes, kind, s, ms, k);
                            lemma_node_ok_frame(old_nodes, self.nodes@, kind, s, ms, k);
                        }
                    }
                },
            }
            proof {
                lemma_nodes_prefix_frame(before, self.nodes@, kind, s, ms, index as int);
            }
            index += 1;
        }
        let ghost nodes_done = self.nodes@;
        let ghost parent_done = self.parent@;
        let mut i: usize = 0;
        while i < n
            invariant
                self.wf(),
                n == self.nodes@.len(),
                self.nodes@ == nodes_done,
                self.parent@ == parent_done,
                self.module_shape == kind,
                self.placement == old(self).placement,
                self.node_placement == old(self).node_placement,
                0 <= i <= n,
                forall|k: int| 0 <= k < i ==> !#[trigger] self.update@[k],
            decreases n - i,
        {
            self.update.set(i, false);
            i += 1;
        }
        proof {
            lemma_stack_shape(s, n as int);
        }
        let root = stack.pop().unwrap();
        assert(root == n - 1);
        self.parent.set(root, NO_PARENT);
        self.root = root;
        proof {
            assert forall|k: int| 0 <= k < n implies #[trigger] self.node_ok(s, ms, k) && self.links_ok(s, k) by {
                assert(node_ok_in(nodes_done, kind, s, ms, k));
                assert(links_ok_in(parent_done, s, k));
                if !(s[k] is Module) {
                    assert(prefix_ok(s, k + 1));
                    lemma_children(s, k);
                }
            }
        }
    }
}


/// Every node of a consistent tree has at least one shape.
proof fn lemma_shapes_nonempty(t: &SlicingTree, s: Seq<ModuleNode>, ms: Seq<Rectangle>, k: int)
    requires
        t.consistent(s, ms),
        0 <= k < s.len(),
    ensures
        t.nodes@[k].shape.points@.len() > 0,
    decreases k,
{
    assert(t.node_ok(s, ms, k));
    lemma_node_ok_facts(t, s, ms, k);
    assert(prefix_ok(s, k + 1));
    let pts = t.nodes@[k].shape.points@;
    if s[k] is Module {
        let m = ms[module_id(s[k])];
        let c = leaf_cands(t.module_shape, m);
        if let ModuleShape::AspectRatios(ml) = t.module_shape {
            let f = factor_shapes(m.width * m.height, min_side(ml), m.width * m.height + 1);
            if f == Set::<Rectangle>::empty() {
                assert(c.contains(m));
            } else {
                assert(exists|q: Rectangle| f.contains(q)) by {
                    if !exists|q: Rectangle| f.contains(q) {
                        assert(f =~= Set::<Rectangle>::empty());
                    }
                }
                let q = choose|q: Rectangle| f.contains(q);
                assert(c.contains(q));
            }
        } else {
            assert(c.contains(m));
        }
    } else {
        lemma_children(s, k);
        let l = left_child(s, k);
        let r = right_child(s, k);
        lemma_shapes_nonempty(t, s, ms, l);
        lemma_shapes_nonempty(t, s, ms, r);
        let a = t.nodes@[l].shape.points@;
        let b = t.nodes@[r].shape.points@;
        let q = crate::geometry::combine_spec(a[0], b[0], s[k]);
        assert(cross(a, b, s[k]).contains(q));
    }
}

/// In a consistent tree every cut's operands come before it, and the
/// root's shapes fit the extent limit.
pub open spec fn placeable(t: &SlicingTree) -> bool {
    &&& t.wf()
    &&& t.root == t.nodes@.len() - 1
    &&& nodes_placeable(t.nodes@)
}

/// The node facts that placing needs.
pub open spec fn nodes_placeable(nodes: Seq<SlicingTreeNode>) -> bool {
    let n = nodes.len();
    &&& nodes[n - 1].shape.points@.len() > 0
    &&& forall|i: int|
        0 <= i < nodes[n - 1].shape.points@.len() ==> #[trigger] nodes[n - 1].shape.points@[i].width
            + nodes[n - 1].shape.points@[i].height <= EXTENT_LIMIT
    &&& forall|v: int|
        0 <= v < n && !(#[trigger] nodes[v].module_type is Module) ==> nodes[v].left < nodes[v].right < v
            && all_combinable(
            nodes[nodes[v].left as int].shape.points@,
            nodes[nodes[v].right as int].shape.points@,
        )
    &&& forall|v1: int, v2: int|
        0 <= v1 < v2 < n && !(#[trigger] nodes[v1].module_type is Module) && !(#[trigger] nodes[v2].module_type is Module)
            ==> nodes[v1].left != nodes[v2].left && nodes[v1].left != nodes[v2].right
            && nodes[v1].right != nodes[v2].left && nodes[v1].right != nodes[v2].right
    &&& forall|v: int, i: int|
        0 <= v < n && !(nodes[v].module_type is Module) && 0 <= i < nodes[v].shape.points@.len() ==> cross(
            nodes[nodes[v].left as int].shape.points@,
            nodes[nodes[v].right as int].shape.points@,
            nodes[v].module_type,
        ).contains(#[trigger] nodes[v].shape.points@[i])
    &&& forall|u: int| 0 <= u < n - 1 ==> #[trigger] has_parent_from(nodes, u, u + 1)
}

/// Some cut at position `lo` or later takes node `u` as an operand.
pub open spec fn has_parent_from(nodes: Seq<SlicingTreeNode>, u: int, lo: int) -> bool {
    exists|p: int|
        lo <= p < nodes.len() && !(#[trigger] nodes[p].module_type is Module) && (nodes[p].left == u
            || nodes[p].right == u)
}

/// A consistent tree can be placed.
pub proof fn lemma_consistent_placeable(t: &SlicingTree, s: Seq<ModuleNode>, ms: Seq<Rectangle>)
    requires
        t.consistent(s, ms),
    ensures
        placeable(t),
{
    let n = s.len() as int;
    lemma_shapes_nonempty(t, s, ms, n - 1);
    assert(t.node_ok(s, ms, n - 1));
    lemma_node_ok_facts(t, s, ms, n - 1);
    assert(prefix_ok(s, n));
    lemma_span(s, n - 1);
    let u = unit(n);
    lemma_fundamental_div_mod(EXTENT_LIMIT as int, n);
    assert(n * u <= EXTENT_LIMIT) by (nonlinear_arith)
        requires
            EXTENT_LIMIT == n * u + (EXTENT_LIMIT as int % n),
            0 <= EXTENT_LIMIT as int % n,
    ;
    lemma_mul_inequality(span_size(s, n - 1), n, u);
    assert forall|v: int|
        0 <= v < n && !(#[trigger] t.nodes@[v].module_type is Module) implies t.nodes@[v].left < t.nodes@[v].right < v
            && all_combinable(
            t.nodes@[t.nodes@[v].left as int].shape.points@,
            t.nodes@[t.nodes@[v].right as int].shape.points@,
        ) by {
        assert(t.node_ok(s, ms, v));
        lemma_node_ok_facts(t, s, ms, v);
        assert(prefix_ok(s, v + 1));
        lemma_children(s, v);
        let l = left_child(s, v);
        let r = right_child(s, v);
        assert(t.node_ok(s, ms, l));
        assert(t.node_ok(s, ms, r));
        lemma_node_ok_facts(t, s, ms, l);
        lemma_node_ok_facts(t, s, ms, r);
        lemma_combine_bound(
            t.nodes@[l].shape.points@,
            t.nodes@[r].shape.points@,
            s[v],
            span_size(s, l),
            span_size(s, r),
            n,
        );
    }
    assert forall|v1: int, v2: int|
        0 <= v1 < v2 < n && !(#[trigger] t.nodes@[v1].module_type is Module) && !(#[trigger] t.nodes@[v2].module_type is Module)
            implies t.nodes@[v1].left != t.nodes@[v2].left && t.nodes@[v1].left != t.nodes@[v2].right
            && t.nodes@[v1].right != t.nodes@[v2].left && t.nodes@[v1].right != t.nodes@[v2].right by {
        assert(t.node_ok(s, ms, v1));
        assert(t.node_ok(s, ms, v2));
        lemma_node_ok_facts(t, s, ms, v1);
        lemma_node_ok_facts(t, s, ms, v2);
        assert(prefix_ok(s, v2 + 1));
        lemma_child_unique(s, v1, v2, left_child(s, v1));
        lemma_child_unique(s, v1, v2, right_child(s, v1));
    }
    assert forall|v: int, i: int|
        0 <= v < n && !(t.nodes@[v].module_type is Module) && 0 <= i < t.nodes@[v].shape.points@.len() implies cross(
            t.nodes@[t.nodes@[v].left as int].shape.points@,
            t.nodes@[t.nodes@[v].right as int].shape.points@,
            t.nodes@[v].module_type,
        ).contains(#[trigger] t.nodes@[v].shape.points@[i]) by {
        assert(t.node_ok(s, ms, v));
        lemma_node_ok_facts(t, s, ms, v);
    }
    assert forall|u: int| 0 <= u < n - 1 implies #[trigger] has_parent_from(t.nodes@, u, u + 1) by {
        crate::postfix::lemma_has_parent(s, u);
        let p = choose|p: int| u < p < s.len() && !(#[trigger] s[p] is Module) && (left_child(s, p) == u || right_child(s, p) == u);
        assert(t.node_ok(s, ms, p));
        lemma_node_ok_facts(t, s, ms, p);
        assert(!(t.nodes@[p].module_type is Module));
    }
}

pub open spec fn area_of(r: Rectangle) -> int {
    r.width * r.height
}

impl SlicingTree {
    /// A tree for `num_modules` modules, every node marked dirty.
    pub fn new(num_modules: usize) -> (r: SlicingTree)
        requires
            1 <= num_modules < usize::MAX / 2,
        ensures
            r.wf(),
            r.nodes@.len() == 2 * num_modules - 1,
            r.placement@.len() == num_modules,
            plan_within_limit(r.placement@),
            r.module_shape == ModuleShape::Rotatable(),
            forall|k: int| 0 <= k < r.update@.len() ==> #[trigger] r.update@[k],
    {
        let num_nodes = 2 * num_modules - 1;
        let mut nodes: Vec<SlicingTreeNode> = Vec::new();
        let mut parent: Vec<usize> = Vec::new();
        let mut node_placement: Vec<(Int, Int, Rectangle, ModuleNode)> = Vec::new();
        let mut update: Vec<bool> = Vec::new();
        let mut i: usize = 0;
        while i < num_nodes
            invariant
                i <= num_nodes,
                nodes@.len() == i,
                parent@.len() == i,
                node_placement@.len() == i,
                update@.len() == i,
                forall|k: int| 0 <= k < i ==> #[trigger] parent@[k] == NO_PARENT,
                forall|k: int| 0 <= k < i ==> #[trigger] update@[k],
            decreases num_nodes - i,
        {
            nodes.push(SlicingTreeNode { left: 0, right: 0, shape: ShapeFunction { points: Vec::new() }, module_type: ModuleNode::Module(0) });
            parent.push(NO_PARENT);
            node_placement.push((0, 0, Rectangle { width: 0, height: 0 }, ModuleNode::H()));
            update.push(true);
            i += 1;
        }
        let mut placement: Floorplan = Vec::new();
        i = 0;
        while i < num_modules
            invariant
                i <= num_modules,
                placement@.len() == i,
                forall|k: int| 0 <= k < i ==> #[trigger] placement@[k] == (0u64, 0u64, Rectangle { width: 0, height: 0 }),
            decreases num_modules - i,
        {
            placement.push((0, 0, Rectangle { width: 0, height: 0 }));
            i += 1;
        }
        SlicingTree { root: 0, nodes, parent, node_placement, placement, update, module_shape: ModuleShape::Rotatable() }
    }

    pub fn set_module_shape(&mut self, module_shape: ModuleShape)
        ensures
            final(self).module_shape == module_shape,
            final(self).nodes == old(self).nodes,
            final(self).parent == old(self).parent,
            final(self).update == old(self).update,
            final(self).root == old(self).root,
            final(self).placement == old(self).placement,
            final(self).node_placement == old(self).node_placement,
    {
        self.module_shape = module_shape;
    }

    /// The shape function of a module under this tree's shape kind.
    pub fn get_module_shape_function(&self, module: Rectangle) -> (r: ShapeFunction)
        requires
            module.width + module.height <= EXTENT_LIMIT,
        ensures
            r.wf(),
            frontier(r.points@, leaf_cands(self.module_shape, module)),
            r.points@ == leaf_points(self.module_shape, module),
    {
        module_shape_function(self.module_shape, module)
    }

    /// The root's shape of least area, the first such one.
    pub fn get_bounding_box(&self) -> (r: Rectangle)
        requires
            placeable(self),
        ensures
            exists|j: int|
                0 <= j < self.nodes@[self.root as int].shape.points@.len() && #[trigger] self.nodes@[self.root as int].shape.points@[j] == r
                    && forall|i: int| 0 <= i < j ==> area_of(#[trigger] self.nodes@[self.root as int].shape.points@[i]) > area_of(r),
            forall|i: int|
                0 <= i < self.nodes@[self.root as int].shape.points@.len() ==> area_of(
                    #[trigger] self.nodes@[self.root as int].shape.points@[i],
                ) >= area_of(r),
            r.width + r.height <= EXTENT_LIMIT,
    {
        let pts = &self.nodes[self.root].shape.points;
        let ghost p = pts@;
        assert(p[0].width + p[0].height <= EXTENT_LIMIT);
        let mut best = pts[0];
        let mut best_area = area_within(best);
        let mut bj: usize = 0;
        let mut i: usize = 1;
        while i < pts.len()
            invariant
                p == pts@,
                p == self.nodes@[self.root as int].shape.points@,
                placeable(self),
                1 <= i <= p.len(),
                bj < i,
                p[bj as int] == best,
                best_area == area_of(best),
                best.width + best.height <= EXTENT_LIMIT,
                forall|k: int| 0 <= k < bj ==> area_of(#[trigger] p[k]) > area_of(best),
                forall|k: int| 0 <= k < i ==> area_of(#[trigger] p[k]) >= area_of(best),
            decreases p.len() - i,
        {
            assert(p[i as int].width + p[i as int].height <= EXTENT_LIMIT);
            let a = area_within(pts[i]);
            if a < best_area {
                best = pts[i];
                best_area = a;
                bj = i;
            }
            i += 1;
        }
        best
    }

    /// The area of the root's least-area shape.
    pub fn get_min_area(&self) -> (r: Int)
        requires
            placeable(self),
        ensures
            forall|i: int|
                0 <= i < self.nodes@[self.root as int].shape.points@.len() ==> area_of(
                    #[trigger] self.nodes@[self.root as int].shape.points@[i],
                ) >= r,
            exists|i: int|
                0 <= i < self.nodes@[self.root as int].shape.points@.len() && area_of(
                    #[trigger] self.nodes@[self.root as int].shape.points@[i],
                ) == r,
    {
        let b = self.get_bounding_box();
        area_within(b)
    }

    /// Marks `v` and every node above it dirty.
    pub fn mark_path(&mut self, v: usize)
        requires
            old(self).wf(),
            v < old(self).nodes@.len() || v == NO_PARENT,
        ensures
            final(self).wf(),
            final(self).nodes == old(self).nodes,
            final(self).parent == old(self).parent,
            final(self).root == old(self).root,
            final(self).module_shape == old(self).module_shape,
            final(self).placement == old(self).placement,
            final(self).node_placement == old(self).node_placement,
            v != NO_PARENT ==> final(self).update@[v as int],
            forall|k: int| 0 <= k < old(self).update@.len() && old(self).update@[k] ==> #[trigger] final(self).update@[k],
            forall|k: int|
                0 <= k < final(self).update@.len() && #[trigger] final(self).update@[k] && !old(self).update@[k]
                    ==> final(self).parent@[k] == NO_PARENT || final(self).update@[final(self).parent@[k] as int],
    {
        let mut w = v;
        while w != NO_PARENT
            invariant
                self.wf(),
                self.nodes == old(self).nodes,
                self.parent == old(self).parent,
                self.root == old(self).root,
                self.module_shape == old(self).module_shape,
                self.placement == old(self).placement,
                self.node_placement == old(self).node_placement,
                w < self.nodes@.len() || w == NO_PARENT,
                self.update@.len() == old(self).update@.len(),
                v != NO_PARENT ==> v < self.update@.len(),
                v != NO_PARENT ==> self.update@[v as int] || w == v,
                forall|k: int| 0 <= k < old(self).update@.len() && old(self).update@[k] ==> #[trigger] self.update@[k],
                forall|k: int|
                    0 <= k < self.update@.len() && #[trigger] self.update@[k] && !old(self).update@[k] ==> self.parent@[k]
                        == NO_PARENT || self.update@[self.parent@[k] as int] || self.parent@[k] == w,
            decreases NO_PARENT - w,
        {
            self.update.set(w, true);
            w = self.parent[w];
        }
    }

    /// Marks every node dirty.
    pub fn update_everything(&mut self)
        requires
            old(self).wf(),
        ensures
            final(self).wf(),
            final(self).nodes == old(self).nodes,
            final(self).parent == old(self).parent,
            final(self).root == old(self).root,
            final(self).module_shape == old(self).module_shape,
            final(self).placement == old(self).placement,
            final(self).node_placement == old(self).node_placement,
            forall|k: int| 0 <= k < final(self).update@.len() ==> #[trigger] final(self).update@[k],
    {
        let mut i: usize = 0;
        while i < self.update.len()
            invariant
                self.wf(),
                self.nodes == old(self).nodes,
                self.parent == old(self).parent,
                self.root == old(self).root,
                self.module_shape == old(self).module_shape,
                self.placement == old(self).placement,
                self.node_placement == old(self).node_placement,
                i <= self.update@.len(),
                forall|k: int| 0 <= k < i ==> #[trigger] self.update@[k],
            decreases self.update@.len() - i,
        {
            self.update.set(i, true);
            i += 1;
        }
    }
}

/// The area of a rectangle within the extent limit.
fn area_within(r: Rectangle) -> (a: Int)
    requires
        r.width + r.height <= EXTENT_LIMIT,
    ensures
        a == area_of(r),
{
    assert(r.width * r.height <= EXTENT_LIMIT * EXTENT_LIMIT) by (nonlinear_arith)
        requires
            r.width + r.height <= EXTENT_LIMIT,
    ;
    r.area()
}


/// Module `id` takes the placement of a leaf among the first `k` nodes that
/// names it, if one does.
pub open spec fn module_placed(np: Seq<(Int, Int, Rectangle, ModuleNode)>, pl: Seq<(Int, Int, Rectangle)>, id: int, k: int) -> bool {
    (exists|w: int| 0 <= w < k && #[trigger] np[w].3 == ModuleNode::Module(id as usize)) ==> exists|w: int|
        0 <= w < k && #[trigger] np[w].3 == ModuleNode::Module(id as usize) && pl[id] == (np[w].0, np[w].1, np[w].2)
}

/// The root sits at the origin with one of its shapes of least area.
pub open spec fn root_placed(t: &SlicingTree) -> bool {
    let n = t.nodes@.len() as int;
    let (x, y, r, o) = t.node_placement@[n - 1];
    &&& x == 0 && y == 0
    &&& o == t.nodes@[n - 1].module_type
    &&& t.nodes@[n - 1].shape.points@.contains(r)
    &&& forall|i: int|
        0 <= i < t.nodes@[n - 1].shape.points@.len() ==> area_of(#[trigger] t.nodes@[n - 1].shape.points@[i]) >= area_of(r)
    &&& first_least(t.nodes@[n - 1].shape.points@, r)
}

/// `r` is the first point of `pts` of least area.
pub open spec fn first_least(pts: Seq<Rectangle>, r: Rectangle) -> bool {
    exists|j: int|
        0 <= j < pts.len() && #[trigger] pts[j] == r && forall|i: int| 0 <= i < j ==> area_of(#[trigger] pts[i]) > area_of(r)
}

/// The placement rule at the cut `v`: its first operand shares its corner,
/// the second sits to the right of it (`V`) or on top of it (`H`), and the
/// two stack to the cut's rectangle.
pub open spec fn cut_placed(t: &SlicingTree, v: int) -> bool {
    let nd = t.nodes@[v];
    let o = nd.module_type;
    let (x, y, r, _) = t.node_placement@[v];
    let (xl, yl, rl, ol) = t.node_placement@[nd.left as int];
    let (xr, yr, rr, or) = t.node_placement@[nd.right as int];
    &&& xl == x && yl == y
    &&& ol == t.nodes@[nd.left as int].module_type
    &&& or == t.nodes@[nd.right as int].module_type
    &&& t.nodes@[nd.left as int].shape.points@.contains(rl)
    &&& t.nodes@[nd.right as int].shape.points@.contains(rr)
    &&& crate::geometry::combine_spec(rl, rr, o) == r
    &&& crate::shape_function::first_split(
        t.nodes@[nd.left as int].shape.points@,
        t.nodes@[nd.right as int].shape.points@,
        o,
        r,
        rl,
        rr,
    )
    &&& if o is V {
        xr == x + rl.width && yr == y
    } else {
        xr == x && yr == y + rl.height
    }
}

impl SlicingTree {
    /// Places every node top-down from the root, which gets the root's
    /// least-area shape at the origin: each cut's rectangle is split back into
    /// the operands' shapes that stack to it. Then each module takes the
    /// placement of its leaf. In a placeable tree every split succeeds.
    #[verifier::spinoff_prover]
    #[verifier::rlimit(100)]
    pub fn recompute_floorplan(&mut self)
        requires
            placeable(old(self)),
            plan_within_limit(old(self).placement@),
        ensures
            final(self).wf(),
            final(self).nodes == old(self).nodes,
            final(self).parent == old(self).parent,
            final(self).update == old(self).update,
            final(self).root == old(self).root,
            final(self).module_shape == old(self).module_shape,
            final(self).placement@.len() == old(self).placement@.len(),
            placeable(final(self)),
            plan_within_limit(final(self).placement@),
            root_placed(final(self)),
            forall|v: int|
                0 <= v < final(self).nodes@.len() && !(#[trigger] final(self).nodes@[v].module_type is Module)
                    ==> cut_placed(final(self), v),
            forall|id: int|
                0 <= id < final(self).placement@.len() ==> #[trigger] module_placed(
                    final(self).node_placement@,
                    final(self).placement@,
                    id,
                    final(self).nodes@.len() as int,
                ),
    {
        let n = self.nodes.len();
        let mut i: usize = 0;
        while i < n
            invariant
                placeable(self),
                self.nodes == old(self).nodes,
                self.parent == old(self).parent,
                self.update == old(self).update,
                self.root == old(self).root,
                self.module_shape == old(self).module_shape,
                self.placement == old(self).placement,
                n == self.nodes@.len(),
                0 <= i <= n,
                forall|k: int| 0 <= k < i ==> #[trigger] self.node_placement@[k] == (0u64, 0u64, Rectangle { width: 0, height: 0 }, ModuleNode::H()),
            decreases n - i,
        {
            self.node_placement.set(i, (0, 0, Rectangle { width: 0, height: 0 }, ModuleNode::H()));
            i += 1;
        }
        let root = self.root;
        let bbox = self.get_bounding_box();
        self.node_placement.set(root, (0, 0, bbox, self.nodes[root].module_type));
        let mut v: usize = n;
        while v > 0
            invariant
                placeable(self),
                self.nodes == old(self).nodes,
                self.parent == old(self).parent,
                self.update == old(self).update,
                self.root == old(self).root,
                self.module_shape == old(self).module_shape,
                self.placement == old(self).placement,
                n == self.nodes@.len(),
                root == n - 1,
                0 <= v <= n,
                forall|k: int|
                    0 <= k < n ==> #[trigger] self.node_placement@[k].0 + self.node_placement@[k].2.width <= EXTENT_LIMIT
                        && self.node_placement@[k].1 + self.node_placement@[k].2.height <= EXTENT_LIMIT,
                self.node_placement@[n - 1] == (0u64, 0u64, bbox, self.nodes@[n - 1].module_type),
                self.nodes@[n - 1].shape.points@.contains(bbox),
                first_least(self.nodes@[n - 1].shape.points@, bbox),
                forall|i: int|
                    0 <= i < self.nodes@[n - 1].shape.points@.len() ==> area_of(
                        #[trigger] self.nodes@[n - 1].shape.points@[i],
                    ) >= area_of(bbox),
                forall|u: int| v <= u < n && !(#[trigger] self.nodes@[u].module_type is Module) ==> cut_placed(self, u),
                forall|u: int|
                    0 <= u < n && (u == n - 1 || has_parent_from(self.nodes@, u, if v > u + 1 { v as int } else { u + 1 }))
                        ==> self.nodes@[u].shape.points@.contains(#[trigger] self.node_placement@[u].2),
                plan_within_limit(self.placement@),
            decreases v,
        {
            v -= 1;
            let nd = &self.nodes[v];
            match nd.module_type {
                ModuleNode::Module(_) => {},
                _ => {
                    let l = nd.left;
                    let r = nd.right;
                    let (x, y, rect, o) = self.node_placement[v];
                    proof {
                        if v < n - 1 {
                            assert(has_parent_from(self.nodes@, v as int, v as int + 1));
                        }
                        assert(self.nodes@[v as int].shape.points@.contains(rect));
                        let i = choose|i: int| 0 <= i < self.nodes@[v as int].shape.points@.len() && self.nodes@[v as int].shape.points@[i] == rect;
                        assert(cross(self.nodes@[l as int].shape.points@, self.nodes@[r as int].shape.points@, nd.module_type).contains(
                            self.nodes@[v as int].shape.points@[i]));
                    }
                    let found = ShapeFunction::reconstruct(&self.nodes[l].shape, &self.nodes[r].shape, nd.module_type, &rect);
                    match found {
                        None => {},
                        Some((r1, r2)) => {
                            let ghost before = self.node_placement@;
                            let ml = self.nodes[l].module_type;
                            let mr = self.nodes[r].module_type;
                            self.node_placement.set(l, (x, y, r1, ml));
                            if let ModuleNode::V() = nd.module_type {
                                self.node_placement.set(r, (x + r1.width, y, r2, mr));
                            } else {
                                self.node_placement.set(r, (x, y + r1.height, r2, mr));
                            }
                            assert(cut_placed(self, v as int));
                            assert forall|u: int|
                                0 <= u < n && (u == n - 1 || has_parent_from(self.nodes@, u, if v > u + 1 { v as int } else { u + 1 }))
                                    implies self.nodes@[u].shape.points@.contains(#[trigger] self.node_placement@[u].2) by {
                                if u != l && u != r && u != n - 1 {
                                    if v >= u + 1 {
                                        let p = choose|p: int|
                                            v <= p < n && !(#[trigger] self.nodes@[p].module_type is Module) && (self.nodes@[p].left == u
                                                || self.nodes@[p].right == u);
                                        if p == v {
                                            assert(false);
                                        }
                                        assert(has_parent_from(self.nodes@, u, v as int + 1));
                                    }
                                    assert(self.node_placement@[u] == before[u]);
                                }
                            }
                            assert forall|u: int| v < u < n && !(#[trigger] self.nodes@[u].module_type is Module) implies cut_placed(self, u) by {
                                assert(self.node_placement@[u] == before[u]);
                                assert(self.node_placement@[self.nodes@[u].left as int] == before[self.nodes@[u].left as int]);
                                assert(self.node_placement@[self.nodes@[u].right as int] == before[self.nodes@[u].right as int]);
                            }
                        },
                    }
                },
            }
        }
        let ghost np = self.node_placement@;
        let mut k: usize = 0;
        while k < n
            invariant
                self.node_placement@ == np,
                np.len() == n,
                placeable(self),
                self.nodes == old(self).nodes,
                self.parent == old(self).parent,
                self.update == old(self).update,
                self.root == old(self).root,
                self.module_shape == old(self).module_shape,
                n == self.nodes@.len(),
                np[n - 1] == (0u64, 0u64, bbox, self.nodes@[n - 1].module_type),
                self.nodes@[n - 1].shape.points@.contains(bbox),
                first_least(self.nodes@[n - 1].shape.points@, bbox),
                forall|i: int|
                    0 <= i < self.nodes@[n - 1].shape.points@.len() ==> area_of(
                        #[trigger] self.nodes@[n - 1].shape.points@[i],
                    ) >= area_of(bbox),
                forall|u: int| 0 <= u < n && !(#[trigger] self.nodes@[u].module_type is Module) ==> cut_placed(self, u),
                forall|u: int|
                    0 <= u < n ==> #[trigger] np[u].0 + np[u].2.width <= EXTENT_LIMIT && np[u].1 + np[u].2.height
                        <= EXTENT_LIMIT,
                plan_within_limit(self.placement@),
                self.placement@.len() == old(self).placement@.len(),
                0 <= k <= n,
                forall|id: int| 0 <= id < self.placement@.len() ==> #[trigger] module_placed(np, self.placement@, id, k as int),
            decreases n - k,
        {
            let (x, y, rect, m) = self.node_placement[k];
            let ghost before = self.placement@;
            assert(np[k as int].0 + np[k as int].2.width <= EXTENT_LIMIT);
            if let ModuleNode::Module(id) = m {
                if id < self.placement.len() {
                    self.placement.set(id, (x, y, rect));
                }
            }
            proof {
                assert forall|id: int| 0 <= id < self.placement@.len() implies #[trigger] module_placed(np, self.placement@, id, k as int + 1) by {
                    assert(module_placed(np, before, id, k as int));
                    if np[k as int].3 == ModuleNode::Module(id as usize) {
                        assert(self.placement@[id] == (np[k as int].0, np[k as int].1, np[k as int].2));
                    } else if exists|w: int| 0 <= w < k + 1 && #[trigger] np[w].3 == ModuleNode::Module(id as usize) {
                        let w = choose|w: int| 0 <= w < k + 1 && #[trigger] np[w].3 == ModuleNode::Module(id as usize);
                        assert(w < k);
                        let w2 = choose|w2: int| 0 <= w2 < k && #[trigger] np[w2].3 == ModuleNode::Module(id as usize) && before[id]
                            == (np[w2].0, np[w2].1, np[w2].2);
                        assert(self.placement@[id] == before[id]);
                    }
                }
            }
            k += 1;
        }
    }
}


/// Every node marked since `before` has its parent marked too, or is the
/// root.
pub open spec fn marks_closed(t: &SlicingTree, before: Seq<bool>) -> bool {
    forall|k: int|
        0 <= k < t.update@.len() && #[trigger] t.update@[k] && !before[k] ==> t.parent@[k] == NO_PARENT
            || t.update@[t.parent@[k] as int]
}

impl SlicingTree {
    /// Marks what swapping the modules at positions `left` and `right`
    /// invalidates: both leaves and everything above them.
    pub fn update_swap_leafs(&mut self, left: usize, right: usize)
        requires
            old(self).wf(),
            left < old(self).nodes@.len(),
            right < old(self).nodes@.len(),
        ensures
            final(self).wf(),
            final(self).nodes == old(self).nodes,
            final(self).parent == old(self).parent,
            final(self).root == old(self).root,
            final(self).module_shape == old(self).module_shape,
            final(self).placement == old(self).placement,
            final(self).node_placement == old(self).node_placement,
            final(self).update@[left as int],
            final(self).update@[right as int],
            forall|k: int| 0 <= k < old(self).update@.len() && old(self).update@[k] ==> #[trigger] final(self).update@[k],
            marks_closed(final(self), old(self).update@),
    {
        let parent1 = self.parent[left];
        let parent2 = self.parent[right];
        self.mark_path(parent1);
        if parent1 != parent2 {
            self.mark_path(parent2);
        }
        self.update.set(left, true);
        self.update.set(right, true);
    }

    /// Marks what inverting the chain of cuts that starts at position `v`
    /// invalidates: `v` and everything above it.
    pub fn update_invert_chain(&mut self, v: usize)
        requires
            old(self).wf(),
            v < old(self).nodes@.len(),
        ensures
            final(self).wf(),
            final(self).nodes == old(self).nodes,
            final(self).parent == old(self).parent,
            final(self).root == old(self).root,
            final(self).module_shape == old(self).module_shape,
            final(self).placement == old(self).placement,
            final(self).node_placement == old(self).node_placement,
            final(self).update@[v as int],
            forall|k: int| 0 <= k < old(self).update@.len() && old(self).update@[k] ==> #[trigger] final(self).update@[k],
            marks_closed(final(self), old(self).update@),
    {
        self.mark_path(v);
    }

    /// Marks both positions of an operand-operator swap and everything above
    /// them.
    pub fn update_swap_operand_operator(&mut self, left: usize, right: usize)
        requires
            old(self).wf(),
            left < old(self).nodes@.len(),
            right < old(self).nodes@.len(),
        ensures
            final(self).wf(),
            final(self).nodes == old(self).nodes,
            final(self).parent == old(self).parent,
            final(self).root == old(self).root,
            final(self).module_shape == old(self).module_shape,
            final(self).placement == old(self).placement,
            final(self).node_placement == old(self).node_placement,
            final(self).update@[left as int],
            final(self).update@[right as int],
            forall|k: int| 0 <= k < old(self).update@.len() && old(self).update@[k] ==> #[trigger] final(self).update@[k],
            marks_closed(final(self), old(self).update@),
    {
        self.mark_path(left);
        self.mark_path(right);
    }

    /// Whether the nodes carry exactly the tokens of `polish_expression`.
    pub fn sanity_check(&self, polish_expression: &Vec<ModuleNode>) -> (r: bool)
        ensures
            r == (self.nodes@.len() == polish_expression@.len() && forall|i: int|
                0 <= i < self.nodes@.len() ==> #[trigger] self.nodes@[i].module_type == polish_expression@[i]),
    {
        if self.nodes.len() != polish_expression.len() {
            return false;
        }
        let mut i: usize = 0;
        while i < self.nodes.len()
            invariant
                self.nodes@.len() == polish_expression@.len(),
                i <= self.nodes@.len(),
                forall|k: int| 0 <= k < i ==> #[trigger] self.nodes@[k].module_type == polish_expression@[k],
            decreases self.nodes@.len() - i,
        {
            if self.nodes[i].module_type != polish_expression[i] {
                return false;
            }
            i += 1;
        }
        true
    }
}

/// Two shape sequences hold the same shapes.
pub open spec fn same_shapes(a: Seq<Rectangle>, b: Seq<Rectangle>) -> bool {
    forall|x: Rectangle| a.contains(x) <==> b.contains(x)
}

proof fn lemma_cross_same(a1: Seq<Rectangle>, b1: Seq<Rectangle>, a2: Seq<Rectangle>, b2: Seq<Rectangle>, o: ModuleNode)
    requires
        same_shapes(a1, a2),
        same_shapes(b1, b2),
    ensures
        cross(a1, b1, o) == cross(a2, b2, o),
{
    assert forall|q: Rectangle| cross(a1, b1, o).contains(q) implies cross(a2, b2, o).contains(q) by {
        let (i, j) = choose|i: int, j: int|
            0 <= i < a1.len() && 0 <= j < b1.len() && q == crate::geometry::combine_spec(#[trigger] a1[i], #[trigger] b1[j], o);
        assert(a1.contains(a1[i]));
        assert(b1.contains(b1[j]));
        let i2 = choose|i2: int| 0 <= i2 < a2.len() && a2[i2] == a1[i];
        let j2 = choose|j2: int| 0 <= j2 < b2.len() && b2[j2] == b1[j];
        assert(q == crate::geometry::combine_spec(a2[i2], b2[j2], o));
    }
    assert forall|q: Rectangle| cross(a2, b2, o).contains(q) implies cross(a1, b1, o).contains(q) by {
        let (i, j) = choose|i: int, j: int|
            0 <= i < a2.len() && 0 <= j < b2.len() && q == crate::geometry::combine_spec(#[trigger] a2[i], #[trigger] b2[j], o);
        assert(a2.contains(a2[i]));
        assert(b2.contains(b2[j]));
        let i2 = choose|i2: int| 0 <= i2 < a1.len() && a1[i2] == a2[i];
        let j2 = choose|j2: int| 0 <= j2 < b1.len() && b1[j2] == b2[j];
        assert(q == crate::geometry::combine_spec(a1[i2], b1[j2], o));
    }
    assert(cross(a1, b1, o) =~= cross(a2, b2, o));
}

/// Two consistent trees of the same expression over the same modules hold
/// the same shapes at every node, however they were brought up to date: an
/// incremental recomputation ends where a full one does.
pub proof fn lemma_consistent_unique(t1: &SlicingTree, t2: &SlicingTree, s: Seq<ModuleNode>, ms: Seq<Rectangle>, k: int)
    requires
        t1.consistent(s, ms),
        t2.consistent(s, ms),
        t1.module_shape == t2.module_shape,
        0 <= k < s.len(),
    ensures
        same_shapes(t1.nodes@[k].shape.points@, t2.nodes@[k].shape.points@),
        t1.nodes@[k].shape.points@ == t2.nodes@[k].shape.points@,
        !(s[k] is Module) ==> t1.nodes@[k].left == t2.nodes@[k].left && t1.nodes@[k].right == t2.nodes@[k].right,
        t1.nodes@[k].module_type == t2.nodes@[k].module_type,
    decreases k,
{
    assert(t1.node_ok(s, ms, k));
    assert(t2.node_ok(s, ms, k));
    lemma_node_ok_facts(t1, s, ms, k);
    lemma_node_ok_facts(t2, s, ms, k);
    let pts1 = t1.nodes@[k].shape.points@;
    let pts2 = t2.nodes@[k].shape.points@;
    if s[k] is Module {
        crate::shape_function::lemma_frontier_unique(pts1, pts2, leaf_cands(t1.module_shape, ms[module_id(s[k])]));
    } else {
        assert(prefix_ok(s, k + 1));
        lemma_children(s, k);
        let l = left_child(s, k);
        let r = right_child(s, k);
        lemma_consistent_unique(t1, t2, s, ms, l);
        lemma_consistent_unique(t1, t2, s, ms, r);
        lemma_cross_same(
            t1.nodes@[l].shape.points@,
            t1.nodes@[r].shape.points@,
            t2.nodes@[l].shape.points@,
            t2.nodes@[r].shape.points@,
            s[k],
        );
        crate::shape_function::lemma_frontier_unique(pts1, pts2, cross(t1.nodes@[l].shape.points@, t1.nodes@[r].shape.points@, s[k]));
    }
}


/// A node stays up to date when the expression changes elsewhere without
/// changing which tokens are modules.
proof fn lemma_node_ok_pattern(
    nodes: Seq<SlicingTreeNode>,
    kind: ModuleShape,
    s: Seq<ModuleNode>,
    t: Seq<ModuleNode>,
    ms: Seq<Rectangle>,
    k: int,
)
    requires
        node_ok_in(nodes, kind, s, ms, k),
        s.len() == t.len(),
        0 <= k < s.len(),
        s[k] == t[k],
        forall|j: int| 0 <= j < s.len() ==> (#[trigger] s[j] is Module) == (t[j] is Module),
    ensures
        node_ok_in(nodes, kind, t, ms, k),
{
    reveal(node_ok_in);
    crate::postfix::lemma_same_pattern(s, t, k);
    crate::postfix::lemma_same_pattern_span(s, t, k);
}

/// After an edit that keeps which tokens are modules, marking every edited
/// position with its ancestors leaves each clean node up to date for the
/// new expression.
pub proof fn lemma_marked_clean_consistent(
    t0: &SlicingTree,
    t: &SlicingTree,
    s: Seq<ModuleNode>,
    s2: Seq<ModuleNode>,
    ms: Seq<Rectangle>,
)
    requires
        t0.consistent(s, ms),
        forall|k: int| 0 <= k < t0.update@.len() ==> !#[trigger] t0.update@[k],
        t.wf(),
        t.nodes == t0.nodes,
        t.parent == t0.parent,
        t.module_shape == t0.module_shape,
        marks_closed(t, t0.update@),
        s2.len() == s.len(),
        forall|j: int| 0 <= j < s.len() ==> (#[trigger] s[j] is Module) == (s2[j] is Module),
        forall|j: int| 0 <= j < s.len() && s[j] != s2[j] ==> #[trigger] t.update@[j],
    ensures
        t.clean_consistent(s2, ms),
{
    assert forall|k: int|
        0 <= k < t.nodes@.len() && !(#[trigger] t.update@[k]) implies t.node_ok(s2, ms, k) && t.links_ok(s2, k)
            && (!(s2[k] is Module) ==> !t.update@[left_child(s2, k)] && !t.update@[right_child(s2, k)]) by {
        assert(t0.node_ok(s, ms, k));
        assert(t0.links_ok(s, k));
        lemma_node_ok_pattern(t.nodes@, t.module_shape, s, s2, ms, k);
        crate::postfix::lemma_same_pattern(s, s2, k);
        if !(s2[k] is Module) {
            assert(prefix_ok(s, k + 1));
            lemma_children(s, k);
            let l = left_child(s, k);
            let r = right_child(s, k);
            if t.update@[l] {
                assert(!t0.update@[l]);
                assert(t.parent@[l] == k);
            }
            if t.update@[r] {
                assert(!t0.update@[r]);
                assert(t.parent@[r] == k);
            }
        }
    }
}


/// The box of `a` lies within the box of `b`.
pub open spec fn inside(a: (Int, Int, Rectangle, ModuleNode), b: (Int, Int, Rectangle, ModuleNode)) -> bool {
    &&& b.0 <= a.0
    &&& a.0 + a.2.width <= b.0 + b.2.width
    &&& b.1 <= a.1
    &&& a.1 + a.2.height <= b.1 + b.2.height
}

/// The boxes of `a` and `b` share no interior point.
pub open spec fn apart(a: (Int, Int, Rectangle, ModuleNode), b: (Int, Int, Rectangle, ModuleNode)) -> bool {
    a.0 + a.2.width <= b.0 || b.0 + b.2.width <= a.0 || a.1 + a.2.height <= b.1 || b.1 + b.2.height <= a.1
}

/// Position `w` lies in the subtree rooted at `u`.
pub open spec fn in_span(s: Seq<ModuleNode>, u: int, w: int) -> bool {
    crate::postfix::span_start(s, u) <= w <= u
}

/// In a placed consistent tree every node's box lies within the box of each
/// node above it, and the boxes of two different leaves of a subtree are
/// apart.
#[verifier::spinoff_prover]
pub proof fn lemma_subtree_boxes(t: &SlicingTree, s: Seq<ModuleNode>, ms: Seq<Rectangle>, u: int)
    requires
        t.consistent(s, ms),
        forall|v: int| 0 <= v < s.len() && !(#[trigger] t.nodes@[v].module_type is Module) ==> cut_placed(t, v),
        0 <= u < s.len(),
    ensures
        forall|w: int| #[trigger] in_span(s, u, w) ==> inside(t.node_placement@[w], t.node_placement@[u]),
        forall|a: int, b: int|
            #[trigger] in_span(s, u, a) && #[trigger] in_span(s, u, b) && a != b && s[a] is Module && s[b] is Module
                ==> apart(t.node_placement@[a], t.node_placement@[b]),
    decreases u,
{
    let np = t.node_placement@;
    assert(crate::postfix::prefix_ok(s, u + 1));
    if s[u] is Module {
        lemma_leaf_span(s, u);
    } else {
        lemma_children(s, u);
        let l = left_child(s, u);
        let r = right_child(s, u);
        lemma_span(s, l);
        lemma_subtree_boxes(t, s, ms, l);
        lemma_subtree_boxes(t, s, ms, r);
        assert(t.node_ok(s, ms, u));
        lemma_node_ok_facts(t, s, ms, u);
        assert(cut_placed(t, u));
        let pu = np[u];
        let pl = np[l];
        let pr = np[r];
        lemma_consistent_placeable(t, s, ms);
        assert(!(t.nodes@[u].module_type is Module));
        let sl = t.nodes@[l].shape.points@;
        let sr = t.nodes@[r].shape.points@;
        assert(all_combinable(sl, sr));
        let il = choose|i: int| 0 <= i < sl.len() && sl[i] == pl.2;
        let ir = choose|i: int| 0 <= i < sr.len() && sr[i] == pr.2;
        assert(crate::geometry::combinable(sl[il], sr[ir]));
        assert(inside(pl, pu));
        assert(inside(pr, pu));
        assert(apart(pl, pr));
        assert forall|w: int| #[trigger] in_span(s, u, w) implies inside(np[w], np[u]) by {
            if w != u {
                if w <= l {
                    assert(in_span(s, l, w));
                } else {
                    assert(in_span(s, r, w));
                }
            }
        }
        assert forall|a: int, b: int|
            #[trigger] in_span(s, u, a) && #[trigger] in_span(s, u, b) && a != b && s[a] is Module && s[b] is Module
                implies apart(np[a], np[b]) by {
            assert(a != u && b != u);
            if a <= l && b <= l {
                assert(in_span(s, l, a) && in_span(s, l, b));
            } else if a > l && b > l {
                assert(in_span(s, r, a) && in_span(s, r, b));
            } else if a <= l {
                assert(in_span(s, l, a) && in_span(s, r, b));
                assert(inside(np[a], pl));
                assert(inside(np[b], pr));
            } else {
                assert(in_span(s, r, a) && in_span(s, l, b));
                assert(inside(np[a], pr));
                assert(inside(np[b], pl));
            }
        }
    }
}

/// Two different leaves of a placed consistent tree lie apart, and inside
/// the root's box.
pub proof fn lemma_leaves_apart(t: &SlicingTree, s: Seq<ModuleNode>, ms: Seq<Rectangle>, a: int, b: int)
    requires
        t.consistent(s, ms),
        forall|v: int| 0 <= v < s.len() && !(#[trigger] t.nodes@[v].module_type is Module) ==> cut_placed(t, v),
        0 <= a < s.len(),
        0 <= b < s.len(),
        a != b,
        s[a] is Module,
        s[b] is Module,
    ensures
        apart(t.node_placement@[a], t.node_placement@[b]),
        inside(t.node_placement@[a], t.node_placement@[s.len() - 1]),
{
    let n = s.len() as int;
    lemma_subtree_boxes(t, s, ms, n - 1);
    assert(crate::postfix::prefix_ok(s, n));
    crate::postfix::lemma_stack_shape(s, n);
    assert(crate::postfix::stack_after(s, n)[0] == n - 1);
    assert(in_span(s, n - 1, a));
    assert(in_span(s, n - 1, b));
}


/// Some leaf of the subtree rooted at `u` reaches the right edge of `u`'s
/// box, and some leaf reaches its top edge: the boxes are tight.
#[verifier::spinoff_prover]
pub proof fn lemma_subtree_tight(t: &SlicingTree, s: Seq<ModuleNode>, ms: Seq<Rectangle>, u: int)
    requires
        t.consistent(s, ms),
        forall|v: int| 0 <= v < s.len() && !(#[trigger] t.nodes@[v].module_type is Module) ==> cut_placed(t, v),
        0 <= u < s.len(),
    ensures
        exists|a: int|
            #[trigger] in_span(s, u, a) && s[a] is Module && t.node_placement@[a].0 + t.node_placement@[a].2.width
                == t.node_placement@[u].0 + t.node_placement@[u].2.width,
        exists|b: int|
            #[trigger] in_span(s, u, b) && s[b] is Module && t.node_placement@[b].1 + t.node_placement@[b].2.height
                == t.node_placement@[u].1 + t.node_placement@[u].2.height,
    decreases u,
{
    let np = t.node_placement@;
    assert(crate::postfix::prefix_ok(s, u + 1));
    if s[u] is Module {
        lemma_leaf_span(s, u);
        assert(in_span(s, u, u));
    } else {
        lemma_children(s, u);
        let l = left_child(s, u);
        let r = right_child(s, u);
        lemma_span(s, l);
        lemma_subtree_tight(t, s, ms, l);
        lemma_subtree_tight(t, s, ms, r);
        assert(t.node_ok(s, ms, u));
        lemma_node_ok_facts(t, s, ms, u);
        assert(cut_placed(t, u));
        let pl = np[l];
        let pr = np[r];
        lemma_consistent_placeable(t, s, ms);
        assert(!(t.nodes@[u].module_type is Module));
        let sl = t.nodes@[l].shape.points@;
        let sr = t.nodes@[r].shape.points@;
        let il = choose|i: int| 0 <= i < sl.len() && sl[i] == pl.2;
        let ir = choose|i: int| 0 <= i < sr.len() && sr[i] == pr.2;
        assert(crate::geometry::combinable(sl[il], sr[ir]));
        let ar = choose|a: int|
            #[trigger] in_span(s, r, a) && s[a] is Module && np[a].0 + np[a].2.width == pr.0 + pr.2.width;
        let al = choose|a: int|
            #[trigger] in_span(s, l, a) && s[a] is Module && np[a].0 + np[a].2.width == pl.0 + pl.2.width;
        let br = choose|b: int|
            #[trigger] in_span(s, r, b) && s[b] is Module && np[b].1 + np[b].2.height == pr.1 + pr.2.height;
        let bl = choose|b: int|
            #[trigger] in_span(s, l, b) && s[b] is Module && np[b].1 + np[b].2.height == pl.1 + pl.2.height;
        assert(in_span(s, u, ar) && in_span(s, u, al) && in_span(s, u, br) && in_span(s, u, bl));
        if s[u] is V {
            if pl.2.height >= pr.2.height {
                assert(np[bl].1 + np[bl].2.height == np[u].1 + np[u].2.height);
            } else {
                assert(np[br].1 + np[br].2.height == np[u].1 + np[u].2.height);
            }
            assert(np[ar].0 + np[ar].2.width == np[u].0 + np[u].2.width);
        } else {
            if pl.2.width >= pr.2.width {
                assert(np[al].0 + np[al].2.width == np[u].0 + np[u].2.width);
            } else {
                assert(np[ar].0 + np[ar].2.width == np[u].0 + np[u].2.width);
            }
            assert(np[br].1 + np[br].2.height == np[u].1 + np[u].2.height);
        }
    }
}


/// Two placed consistent trees of the same expression over the same modules
/// place every node alike: the root takes the first least-area shape, and
/// each cut the first pair of operand shapes that stacks to its rectangle.
#[verifier::spinoff_prover]
pub proof fn lemma_same_node_placement(t1: &SlicingTree, t2: &SlicingTree, s: Seq<ModuleNode>, ms: Seq<Rectangle>, w: int)
    requires
        t1.consistent(s, ms),
        t2.consistent(s, ms),
        t1.module_shape == t2.module_shape,
        root_placed(t1),
        root_placed(t2),
        forall|v: int| 0 <= v < s.len() && !(#[trigger] t1.nodes@[v].module_type is Module) ==> cut_placed(t1, v),
        forall|v: int| 0 <= v < s.len() && !(#[trigger] t2.nodes@[v].module_type is Module) ==> cut_placed(t2, v),
        0 <= w < s.len(),
    ensures
        t1.node_placement@[w] == t2.node_placement@[w],
    decreases s.len() - w,
{
    let n = s.len() as int;
    lemma_consistent_unique(t1, t2, s, ms, w);
    if w == n - 1 {
        let pts = t1.nodes@[w].shape.points@;
        let r1 = t1.node_placement@[w].2;
        let r2 = t2.node_placement@[w].2;
        let j1 = choose|j: int| 0 <= j < pts.len() && #[trigger] pts[j] == r1 && forall|i: int| 0 <= i < j ==> area_of(#[trigger] pts[i]) > area_of(r1);
        let j2 = choose|j: int| 0 <= j < pts.len() && #[trigger] pts[j] == r2 && forall|i: int| 0 <= i < j ==> area_of(#[trigger] pts[i]) > area_of(r2);
        assert(area_of(pts[j2]) >= area_of(r1));
        assert(area_of(pts[j1]) >= area_of(r2));
        if j1 < j2 {
            assert(area_of(pts[j1]) > area_of(r2));
        } else if j2 < j1 {
            assert(area_of(pts[j2]) > area_of(r1));
        }
        assert(r1 == r2);
        assert(t1.node_placement@[w].3 == t2.node_placement@[w].3);
    } else {
        lemma_consistent_placeable(t1, s, ms);
        assert(has_parent_from(t1.nodes@, w, w + 1));
        let p = choose|p: int|
            w + 1 <= p < t1.nodes@.len() && !(#[trigger] t1.nodes@[p].module_type is Module) && (t1.nodes@[p].left == w
                || t1.nodes@[p].right == w);
        lemma_same_node_placement(t1, t2, s, ms, p);
        lemma_consistent_unique(t1, t2, s, ms, p);
        assert(cut_placed(t1, p));
        assert(cut_placed(t2, p));
        let l = t1.nodes@[p].left as int;
        let r = t1.nodes@[p].right as int;
        lemma_consistent_unique(t1, t2, s, ms, l);
        lemma_consistent_unique(t1, t2, s, ms, r);
        assert(t1.node_ok(s, ms, p));
        lemma_node_ok_token(t1, s, ms, p);
        assert(t2.nodes@[p].left == l && t2.nodes@[p].right == r);
        assert(t2.node_placement@[p] == t1.node_placement@[p]);
        crate::shape_function::lemma_first_split_unique(
            t1.nodes@[l].shape.points@,
            t1.nodes@[r].shape.points@,
            t1.nodes@[p].module_type,
            t1.node_placement@[p].2,
            t1.node_placement@[l].2,
            t1.node_placement@[r].2,
            t2.node_placement@[l].2,
            t2.node_placement@[r].2,
        );
    }
}


/// The area of the module that position `k` names, or zero for a cut.
pub open spec fn module_area_at(s: Seq<ModuleNode>, ms: Seq<Rectangle>, k: int) -> int {
    if s[k] is Module {
        ms[module_id(s[k])].width * ms[module_id(s[k])].height
    } else {
        0
    }
}

/// The total area of the modules named at positions `lo..hi`.
pub open spec fn leaf_area_sum(s: Seq<ModuleNode>, ms: Seq<Rectangle>, lo: int, hi: int) -> int
    decreases hi - lo,
{
    if hi <= lo {
        0
    } else {
        leaf_area_sum(s, ms, lo, hi - 1) + module_area_at(s, ms, hi - 1)
    }
}

proof fn lemma_leaf_area_split(s: Seq<ModuleNode>, ms: Seq<Rectangle>, lo: int, mid: int, hi: int)
    requires
        lo <= mid <= hi,
    ensures
        leaf_area_sum(s, ms, lo, hi) == leaf_area_sum(s, ms, lo, mid) + leaf_area_sum(s, ms, mid, hi),
    decreases hi - mid,
{
    if hi > mid {
        lemma_leaf_area_split(s, ms, lo, mid, hi - 1);
    }
}

/// Every shape a module can take has the module's area.
proof fn lemma_leaf_cands_area(kind: ModuleShape, m: Rectangle, q: Rectangle)
    requires
        leaf_cands(kind, m).contains(q),
    ensures
        q.width * q.height == m.width * m.height,
{
    assert(m.height * m.width == m.width * m.height) by (nonlinear_arith);
    if let ModuleShape::AspectRatios(min_length) = kind {
        let area = m.width * m.height;
        let f = factor_shapes(area, min_side(min_length), area + 1);
        if f != Set::<Rectangle>::empty() {
            let a = choose|a: int|
                a < area + 1 && #[trigger] is_factor_side(area, min_side(min_length), a) && ((q.width == a && q.height
                    == area / a) || (q.height == a && q.width == area / a));
            lemma_fundamental_div_mod(area, a);
            assert(a * (area / a) == (area / a) * a) by (nonlinear_arith);
        }
    }
}

/// The rectangle placed at node `u` is at least as large as the modules of
/// its subtree together.
pub proof fn lemma_subtree_area(t: &SlicingTree, s: Seq<ModuleNode>, ms: Seq<Rectangle>, u: int)
    requires
        t.consistent(s, ms),
        forall|v: int| 0 <= v < s.len() && !(#[trigger] t.nodes@[v].module_type is Module) ==> cut_placed(t, v),
        0 <= u < s.len(),
        t.nodes@[u].shape.points@.contains(t.node_placement@[u].2),
    ensures
        area_of(t.node_placement@[u].2) >= leaf_area_sum(s, ms, crate::postfix::span_start(s, u), u + 1),
    decreases u,
{
    let np = t.node_placement@;
    assert(crate::postfix::prefix_ok(s, u + 1));
    assert(t.node_ok(s, ms, u));
    lemma_node_ok_facts(t, s, ms, u);
    if s[u] is Module {
        lemma_leaf_span(s, u);
        let pts = t.nodes@[u].shape.points@;
        let i = choose|i: int| 0 <= i < pts.len() && pts[i] == np[u].2;
        assert(leaf_cands(t.module_shape, ms[module_id(s[u])]).contains(pts[i]));
        lemma_leaf_cands_area(t.module_shape, ms[module_id(s[u])], np[u].2);
        assert(leaf_area_sum(s, ms, u, u) == 0);
    } else {
        lemma_children(s, u);
        let l = left_child(s, u);
        let r = right_child(s, u);
        lemma_span(s, l);
        assert(cut_placed(t, u));
        lemma_subtree_area(t, s, ms, l);
        lemma_subtree_area(t, s, ms, r);
        let ss = crate::postfix::span_start(s, l);
        lemma_leaf_area_split(s, ms, ss, l + 1, u + 1);
        lemma_leaf_area_split(s, ms, l + 1, u, u + 1);
        assert(leaf_area_sum(s, ms, u, u + 1) == leaf_area_sum(s, ms, u, u) + module_area_at(s, ms, u));
        lemma_consistent_placeable(t, s, ms);
        assert(!(t.nodes@[u].module_type is Module));
        let pl = np[l].2;
        let pr = np[r].2;
        let sl = t.nodes@[l].shape.points@;
        let sr = t.nodes@[r].shape.points@;
        let il = choose|i: int| 0 <= i < sl.len() && sl[i] == pl;
        let ir = choose|i: int| 0 <= i < sr.len() && sr[i] == pr;
        assert(crate::geometry::combinable(sl[il], sr[ir]));
        let rc = np[u].2;
        if s[u] is V {
            assert(rc.width == pl.width + pr.width);
            assert(rc.height >= pl.height && rc.height >= pr.height);
            assert(rc.width * rc.height >= pl.width * pl.height + pr.width * pr.height) by (nonlinear_arith)
                requires
                    rc.width == pl.width + pr.width,
                    rc.height >= pl.height,
                    rc.height >= pr.height,
                    pl.width >= 0,
                    pr.width >= 0,
                    pl.height >= 0,
                    pr.height >= 0,
            ;
        } else {
            assert(rc.height == pl.height + pr.height);
            assert(rc.width * rc.height >= pl.width * pl.height + pr.width * pr.height) by (nonlinear_arith)
                requires
                    rc.height == pl.height + pr.height,
                    rc.width >= pl.width,
                    rc.width >= pr.width,
                    pl.width >= 0,
                    pr.width >= 0,
                    pl.height >= 0,
                    pr.height >= 0,
            ;
        }
    }
}

} // verus!
