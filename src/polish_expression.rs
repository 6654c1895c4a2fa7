//! The slicing-tree representation: a normalized postfix expression over the
//! modules, evaluated by a slicing tree, with its local moves.

use vstd::prelude::*;
use crate::geometry::{Rectangle, ModuleNode, Net, Int, is_cut};
use crate::postfix::{valid_postfix, cuts, depth, depth_ok, lemma_depth, lemma_valid_by_depth, lemma_depth_of_valid};
use crate::slicing_tree::{
    SlicingTree, ModuleShape, expression_ok, root_placed, cut_placed, module_placed, area_of, marks_closed,
    lemma_consistent_placeable, lemma_marked_clean_consistent, module_id, leaf_bound, unit,
};
use crate::wirelength::{compute_wirelength, total_wire2, plan_within_limit, pins_in_range};
use crate::search::{Mutation, Solution};
use crate::rng::random_below;

verus! {

/// `s` with the tokens at `a` and `b` exchanged.
pub open spec fn swap_tokens(s: Seq<ModuleNode>, a: int, b: int) -> Seq<ModuleNode> {
    s.update(a, s[b]).update(b, s[a])
}

/// The cut of the other orientation; a module stays as it is.
pub open spec fn inverted(t: ModuleNode) -> ModuleNode {
    match t {
        ModuleNode::H() => ModuleNode::V(),
        ModuleNode::V() => ModuleNode::H(),
        _ => t,
    }
}

/// The end of the run of cuts that starts at `a`: the first module at or
/// after `a`, or the length.
pub open spec fn chain_end(s: Seq<ModuleNode>, a: int) -> int
    decreases s.len() - a,
{
    if a >= s.len() || s[a] is Module {
        a
    } else {
        chain_end(s, a + 1)
    }
}

/// A move of the postfix expression.
#[derive(Debug, Clone, Copy, PartialEq, Eq, Structural)]
pub enum PEMoveType {
    /// Inverts every cut of the run that starts at this position.
    InvertChain(usize),
    /// Swaps two modules.
    SwapOperands(usize, usize),
    /// Swaps a module with a neighbouring cut.
    SwapOperandOperator(usize, usize),
}

impl PEMoveType {
    /// The move can be applied to `s`, and leaves a valid expression.
    pub open spec fn fits(&self, s: Seq<ModuleNode>) -> bool {
        match *self {
            PEMoveType::InvertChain(a) => a < s.len() && (!(s[a as int] is Module) ==> a >= 1 && s[a - 1] is Module),
            PEMoveType::SwapOperands(a, b) => a < s.len() && b < s.len() && s[a as int] is Module && s[b as int] is Module,
            PEMoveType::SwapOperandOperator(a, b) => b == a + 1 && b < s.len() && (s[a as int] is Module) != (
            s[b as int] is Module) && valid_postfix(swap_tokens(s, a as int, b as int)) && normalized(
                swap_tokens(s, a as int, b as int),
            ),
        }
    }

    /// What the move makes of the expression `s`.
    pub open spec fn applied(&self, s: Seq<ModuleNode>) -> Seq<ModuleNode> {
        match *self {
            PEMoveType::InvertChain(a) => Seq::new(
                s.len(),
                |k: int| if a <= k < chain_end(s, a as int) { inverted(s[k]) } else { s[k] },
            ),
            PEMoveType::SwapOperands(a, b) => swap_tokens(s, a as int, b as int),
            PEMoveType::SwapOperandOperator(a, b) => swap_tokens(s, a as int, b as int),
        }
    }

    /// Applies the move to the expression.
    fn apply(&self, solution: &mut Vec<ModuleNode>)
        requires
            self.fits(old(solution)@),
        ensures
            final(solution)@ == self.applied(old(solution)@),
    {
        match *self {
            PEMoveType::SwapOperands(a, b) => swap_nodes(solution, a, b),
            PEMoveType::SwapOperandOperator(a, b) => swap_nodes(solution, a, b),
            PEMoveType::InvertChain(a) => {
                let ghost s = solution@;
                let mut i: usize = a;
                while i < solution.len() && !solution[i].is_module()
                    invariant
                        a <= i <= s.len(),
                        solution@.len() == s.len(),
                        chain_end(s, a as int) == chain_end(s, i as int),
                        forall|k: int| 0 <= k < s.len() ==> #[trigger] solution@[k] == if a <= k < i { inverted(s[k]) } else { s[k] },
                    decreases s.len() - i,
                {
                    let t = solution[i].invert();
                    solution.set(i, t);
                    i += 1;
                }
                assert(chain_end(s, i as int) == i);
                assert(solution@ =~= self.applied(s));
            },
        }
    }
}

fn swap_nodes(v: &mut Vec<ModuleNode>, a: usize, b: usize)
    requires
        a < old(v)@.len(),
        b < old(v)@.len(),
    ensures
        final(v)@ == swap_tokens(old(v)@, a as int, b as int),
{
    let x = v[a];
    let y = v[b];
    v.set(a, y);
    v.set(b, x);
}


/// A floorplan encoded as a postfix expression over the modules, with its
/// slicing tree, placement and costs kept up to date.
#[derive(Debug)]
pub struct PolishExpression {
    pub solution: Vec<ModuleNode>,
    pub modules: Vec<Rectangle>,
    pub nets: Vec<Net>,
    /// For each position, the number of cuts up to and including it.
    pub num_operators: Vec<usize>,
    pub tree: SlicingTree,
    pub current_area: Int,
    /// Twice the half-perimeter wirelength of the placement.
    pub current_wire: u128,
}

/// No node of the tree is marked dirty.
pub open spec fn all_clean(t: &SlicingTree) -> bool {
    forall|k: int| 0 <= k < t.update@.len() ==> !#[trigger] t.update@[k]
}

impl PolishExpression {
    pub open spec fn n(&self) -> int {
        self.modules@.len() as int
    }

    /// The expression is valid over the modules and the tree evaluates it.
    pub open spec fn wf(&self) -> bool {
        let n = self.n();
        &&& n >= 1
        &&& self.solution@.len() == 2 * n - 1
        &&& self.tree.placement@.len() == n
        &&& pins_in_range(self.nets@, n)
        &&& plan_within_limit(self.tree.placement@)
        &&& self.tree.consistent(self.solution@, self.modules@)
        &&& all_clean(&self.tree)
        &&& normalized(self.solution@)
        &&& names_each_once(self.solution@, n)
    }

    /// The placement is the tree's, and the costs and counts belong to it.
    pub open spec fn costs_current(&self) -> bool {
        let len = self.solution@.len() as int;
        &&& root_placed(&self.tree)
        &&& forall|v: int| 0 <= v < len && !(#[trigger] self.tree.nodes@[v].module_type is Module) ==> cut_placed(&self.tree, v)
        &&& forall|id: int|
            0 <= id < self.n() ==> #[trigger] module_placed(self.tree.node_placement@, self.tree.placement@, id, len)
        &&& self.current_area == area_of(self.tree.node_placement@[len - 1].2)
        &&& self.current_wire == total_wire2(self.tree.placement@, self.nets@, self.nets@.len() as int)
        &&& self.num_operators@.len() == len
        &&& forall|k: int| 0 <= k < len ==> #[trigger] self.num_operators@[k] == cuts(self.solution@, k + 1)
    }

    /// For each position, the number of cuts up to and including it.
    fn get_num_operator(&self) -> (r: Vec<usize>)
        requires
            self.solution@.len() < usize::MAX,
        ensures
            r@.len() == self.solution@.len(),
            forall|k: int| 0 <= k < r@.len() ==> #[trigger] r@[k] == cuts(self.solution@, k + 1),
    {
        let mut r: Vec<usize> = Vec::new();
        let mut sum: usize = 0;
        let mut i: usize = 0;
        while i < self.solution.len()
            invariant
                i <= self.solution@.len() < usize::MAX,
                r@.len() == i,
                sum == cuts(self.solution@, i as int),
                sum <= i,
                forall|k: int| 0 <= k < i ==> #[trigger] r@[k] == cuts(self.solution@, k + 1),
            decreases self.solution@.len() - i,
        {
            if !self.solution[i].is_module() {
                sum += 1;
            }
            r.push(sum);
            i += 1;
        }
        r
    }

    /// Re-evaluates the tree where marked, places the modules, and recomputes
    /// the area, the wirelength and the cut counts.
    pub fn update(&mut self)
        requires
            old(self).tree.wf(),
            old(self).n() >= 1,
            old(self).solution@.len() == 2 * old(self).n() - 1,
            old(self).tree.nodes@.len() == old(self).solution@.len(),
            old(self).tree.placement@.len() == old(self).n(),
            pins_in_range(old(self).nets@, old(self).n()),
            plan_within_limit(old(self).tree.placement@),
            expression_ok(old(self).solution@, old(self).modules@, old(self).tree.module_shape),
            old(self).tree.clean_consistent(old(self).solution@, old(self).modules@),
            normalized(old(self).solution@),
            names_each_once(old(self).solution@, old(self).n()),
        ensures
            final(self).wf(),
            final(self).costs_current(),
            final(self).solution == old(self).solution,
            final(self).modules == old(self).modules,
            final(self).nets == old(self).nets,
            final(self).tree.module_shape == old(self).tree.module_shape,
    {
        self.tree.recompute(&self.solution, &self.modules);
        proof {
            lemma_consistent_placeable(&self.tree, self.solution@, self.modules@);
        }
        let ghost t1 = self.tree;
        self.tree.recompute_floorplan();
        let ghost len = self.solution@.len() as int;
        proof {
            assert(self.tree.wf());
            assert(forall|k: int| 0 <= k < len ==> #[trigger] t1.node_ok(self.solution@, self.modules@, k) && t1.links_ok(self.solution@, k));
            assert forall|k: int| 0 <= k < len implies #[trigger] self.tree.node_ok(self.solution@, self.modules@, k) && self.tree.links_ok(self.solution@, k) by {
                assert(t1.node_ok(self.solution@, self.modules@, k));
            }
            assert(self.tree.consistent(self.solution@, self.modules@));
        }
        let a = self.tree.get_min_area();
        proof {
            let r = self.tree.node_placement@[len - 1].2;
            let pts = self.tree.nodes@[len - 1].shape.points@;
            let i = choose|i: int| 0 <= i < pts.len() && pts[i] == r;
            assert(area_of(pts[i]) >= a);
            let j = choose|j: int| 0 <= j < pts.len() && area_of(#[trigger] pts[j]) == a;
            assert(area_of(pts[j]) >= area_of(r));
        }
        self.current_area = a;
        self.current_wire = compute_wirelength(&self.tree.placement, &self.nets);
        self.num_operators = self.get_num_operator();
    }
}


/// The expression that places every module in one row:
/// `0 1 V 2 V ... (n-1) V`.
pub open spec fn all_vertical(n: int) -> Seq<ModuleNode> {
    Seq::new(
        (2 * n - 1) as nat,
        |k: int|
            if k == 0 {
                ModuleNode::Module(0)
            } else if k % 2 == 1 {
                ModuleNode::Module(((k + 1) / 2) as usize)
            } else {
                ModuleNode::V()
            },
    )
}

proof fn lemma_all_vertical_cuts(n: int, k: int)
    requires
        n >= 1,
        1 <= k <= 2 * n - 1,
    ensures
        cuts(all_vertical(n), k) == (k - 1) / 2,
    decreases k,
{
    let s = all_vertical(n);
    if k > 1 {
        lemma_all_vertical_cuts(n, k - 1);
        assert(cuts(s, k) == cuts(s, k - 1) + if s[k - 1] is Module { 0int } else { 1int });
        if (k - 1) % 2 == 1 {
            assert(s[k - 1] is Module);
        } else {
            assert(s[k - 1] == ModuleNode::V());
        }
    } else {
        assert(cuts(s, 1) == cuts(s, 0) + if s[0] is Module { 0int } else { 1int });
        assert(s[0] is Module);
    }
}

#[verifier::spinoff_prover]
proof fn lemma_all_vertical_valid(n: int)
    requires
        1 <= n,
        2 * n - 1 < usize::MAX,
    ensures
        valid_postfix(all_vertical(n)),
{
    let s = all_vertical(n);
    assert forall|j: int| 0 <= j < s.len() && !(#[trigger] s[j] is Module) implies depth(s, j) >= 2 by {
        assert(j != 0 && j % 2 == 0);
        lemma_all_vertical_cuts(n, j);
        assert((j - 1) / 2 == j / 2 - 1);
    }
    lemma_all_vertical_cuts(n, 2 * n - 1);
    assert((2 * n - 1 - 1) / 2 == n - 1);
    assert(crate::postfix::depth_ok(s, s.len() as int));
    lemma_valid_by_depth(s);
}

/// Whether every module fits its share of the extent limit for an
/// expression of `len` tokens under the shape kind `kind`.
pub fn modules_fit(ms: &Vec<Rectangle>, len: usize, kind: ModuleShape) -> (r: bool)
    requires
        len >= 1,
    ensures
        r == forall|id: int|
            0 <= id < ms@.len() ==> #[trigger] ms@[id].width + ms@[id].height <= crate::geometry::EXTENT_LIMIT
                && leaf_bound(kind, ms@[id]) <= unit(len as int),
{
    let u: u64 = crate::geometry::EXTENT_LIMIT / (len as u64);
    let mut i: usize = 0;
    while i < ms.len()
        invariant
            len >= 1,
            i <= ms@.len(),
            u == unit(len as int),
            forall|id: int|
                0 <= id < i ==> #[trigger] ms@[id].width + ms@[id].height <= crate::geometry::EXTENT_LIMIT
                    && leaf_bound(kind, ms@[id]) <= unit(len as int),
        decreases ms@.len() - i,
    {
        let m = ms[i];
        if m.width > crate::geometry::EXTENT_LIMIT || m.height > crate::geometry::EXTENT_LIMIT
            || m.width + m.height > crate::geometry::EXTENT_LIMIT {
            return false;
        }
        let b: u64 = if let ModuleShape::AspectRatios(_) = kind {
            assert(m.width * m.height <= 0x4000_0000_0000_0000) by (nonlinear_arith)
                requires
                    m.width + m.height <= crate::geometry::EXTENT_LIMIT,
            ;
            if m.width * m.height + 1 > m.width + m.height {
                m.width * m.height + 1
            } else {
                m.width + m.height
            }
        } else {
            m.width + m.height
        };
        if b > u {
            return false;
        }
        i += 1;
    }
    true
}

/// Whether `s` is a valid postfix expression over the modules `ms` whose
/// modules all fit their share of the extent limit.
pub fn is_valid_expression(s: &Vec<ModuleNode>, ms: &Vec<Rectangle>, kind: ModuleShape) -> (r: bool)
    ensures
        r == (expression_ok(s@, ms@, kind) && normalized(s@) && names_each_once(s@, ms@.len() as int)),
{
    let len = s.len();
    if len == 0 || len == usize::MAX {
        return false;
    }
    let mut d: usize = 0;
    let mut k: usize = 0;
    while k < len
        invariant
            len == s@.len(),
            1 <= len < usize::MAX,
            k <= len,
            d == depth(s@, k as int),
            d <= k,
            depth_ok(s@, k as int),
            forall|j: int| 0 <= j < k && (#[trigger] s@[j] is Module) ==> module_id(s@[j]) < ms@.len(),
        decreases len - k,
    {
        proof {
            lemma_depth(s@, k as int);
        }
        match s[k] {
            ModuleNode::Module(id) => {
                if id >= ms.len() {
                    return false;
                }
                d = d + 1;
            },
            _ => {
                if d < 2 {
                    proof {
                        if valid_postfix(s@) {
                            lemma_depth_of_valid(s@, k as int + 1);
                        }
                    }
                    return false;
                }
                d = d - 1;
            },
        }
        k += 1;
    }
    if d != 1 {
        proof {
            if valid_postfix(s@) {
                lemma_depth_of_valid(s@, len as int);
            }
        }
        return false;
    }
    proof {
        lemma_valid_by_depth(s@);
    }
    modules_fit(ms, len, kind) && is_normalized(s) && names_each_once_check(s, ms.len())
}

/// Whether each module id below `n` names exactly one leaf; every id in
/// `s` is below `n`.
pub fn names_each_once_check(s: &Vec<ModuleNode>, n: usize) -> (r: bool)
    requires
        forall|k: int| 0 <= k < s@.len() && (#[trigger] s@[k] is Module) ==> module_id(s@[k]) < n,
    ensures
        r == names_each_once(s@, n as int),
{
    let mut seen: Vec<bool> = Vec::new();
    let mut i: usize = 0;
    while i < n
        invariant
            i <= n,
            seen@.len() == i,
            forall|id: int| 0 <= id < i ==> !#[trigger] seen@[id],
        decreases n - i,
    {
        seen.push(false);
        i += 1;
    }
    let mut k: usize = 0;
    while k < s.len()
        invariant
            k <= s@.len(),
            seen@.len() == n,
            forall|j: int| 0 <= j < s@.len() && (#[trigger] s@[j] is Module) ==> module_id(s@[j]) < n,
            forall|id: int|
                0 <= id < n ==> (#[trigger] seen@[id] <==> exists|a: int| 0 <= a < k && #[trigger] s@[a] == ModuleNode::Module(id as usize)),
            forall|a: int, b: int| 0 <= a < b < k && (#[trigger] s@[a] is Module) && (#[trigger] s@[b] is Module) ==> s@[a] != s@[b],
        decreases s@.len() - k,
    {
        if let ModuleNode::Module(id) = s[k] {
            assert(module_id(s@[k as int]) < n);
            if seen[id] {
                proof {
                    let a = choose|a: int| 0 <= a < k && #[trigger] s@[a] == ModuleNode::Module(id as usize);
                    assert(s@[a] is Module && s@[k as int] is Module && s@[a] == s@[k as int]);
                }
                return false;
            }
            seen.set(id, true);
            proof {
                assert forall|id2: int|
                    0 <= id2 < n implies (#[trigger] seen@[id2] <==> exists|a: int| 0 <= a < k + 1 && #[trigger] s@[a] == ModuleNode::Module(id2 as usize)) by {
                    if id2 == id {
                        assert(s@[k as int] == ModuleNode::Module(id2 as usize));
                    } else if exists|a: int| 0 <= a < k + 1 && #[trigger] s@[a] == ModuleNode::Module(id2 as usize) {
                        let a = choose|a: int| 0 <= a < k + 1 && #[trigger] s@[a] == ModuleNode::Module(id2 as usize);
                        assert(a < k);
                    }
                }
                assert forall|a: int, b: int| 0 <= a < b < k + 1 && (#[trigger] s@[a] is Module) && (#[trigger] s@[b] is Module) implies s@[a] != s@[b] by {
                    if b == k {
                        if s@[a] == s@[b] {
                            assert(module_id(s@[a]) == id);
                            assert(seen@[id as int]);
                        }
                    }
                }
            }
        } else {
            proof {
                assert forall|id2: int|
                    0 <= id2 < n implies (#[trigger] seen@[id2] <==> exists|a: int| 0 <= a < k + 1 && #[trigger] s@[a] == ModuleNode::Module(id2 as usize)) by {
                    if exists|a: int| 0 <= a < k + 1 && #[trigger] s@[a] == ModuleNode::Module(id2 as usize) {
                        let a = choose|a: int| 0 <= a < k + 1 && #[trigger] s@[a] == ModuleNode::Module(id2 as usize);
                        assert(a < k);
                    }
                }
            }
        }
        k += 1;
    }
    let mut id: usize = 0;
    while id < n
        invariant
            id <= n,
            seen@.len() == n,
            k == s@.len(),
            forall|id2: int|
                0 <= id2 < n ==> (#[trigger] seen@[id2] <==> exists|a: int| 0 <= a < k && #[trigger] s@[a] == ModuleNode::Module(id2 as usize)),
            forall|id2: int| 0 <= id2 < id ==> #[trigger] names(s@, id2),
        decreases n - id,
    {
        if !seen[id] {
            assert(!names(s@, id as int));
            return false;
        }
        assert(names(s@, id as int));
        id += 1;
    }
    true
}

/// Whether no two cuts of the same orientation stand next to each other.
pub fn is_normalized(s: &Vec<ModuleNode>) -> (r: bool)
    ensures
        r == normalized(s@),
{
    let mut k: usize = 0;
    while k < s.len()
        invariant
            k <= s@.len(),
            forall|j: int| 0 <= j < k && j + 1 < s@.len() && !(#[trigger] s@[j] is Module) && !(s@[j + 1] is Module) ==> s@[j] != s@[j + 1],
        decreases s@.len() - k,
    {
        if k + 1 < s.len() && !s[k].is_module() && !s[k + 1].is_module() && s[k] == s[k + 1] {
            return false;
        }
        k += 1;
    }
    true
}

impl PolishExpression {
    /// A representation of `modules` starting from the all-vertical
    /// expression, with rotatable modules, evaluated and placed.
    pub fn new(modules: Vec<Rectangle>, nets: Vec<Net>) -> (r: PolishExpression)
        requires
            modules@.len() >= 1,
            2 * modules@.len() - 1 < usize::MAX / 2,
            pins_in_range(nets@, modules@.len() as int),
            forall|id: int|
                0 <= id < modules@.len() ==> #[trigger] modules@[id].width + modules@[id].height
                    <= crate::geometry::EXTENT_LIMIT && leaf_bound(ModuleShape::Rotatable(), modules@[id]) <= unit(
                    2 * modules@.len() - 1,
                ),
        ensures
            r.wf(),
            r.costs_current(),
            r.modules@ == modules@,
            r.nets@ == nets@,
            r.solution@ == all_vertical(modules@.len() as int),
            r.tree.module_shape == ModuleShape::Rotatable(),
    {
        let n = modules.len();
        let tree = SlicingTree::new(n);
        let mut pe = PolishExpression {
            solution: Vec::new(),
            modules,
            nets,
            num_operators: Vec::new(),
            tree,
            current_area: 0,
            current_wire: 0,
        };
        pe.set_solution_all_vertical();
        pe
    }

    /// The tree's arrays fit the modules, whatever the tree holds.
    pub open spec fn shell_ok(&self) -> bool {
        let n = self.n();
        &&& n >= 1
        &&& 2 * n - 1 < usize::MAX / 2
        &&& self.tree.wf()
        &&& self.tree.nodes@.len() == 2 * n - 1
        &&& self.tree.placement@.len() == n
        &&& pins_in_range(self.nets@, n)
        &&& plan_within_limit(self.tree.placement@)
    }

    /// Installs a valid expression and evaluates it from scratch.
    fn install(&mut self, solution: Vec<ModuleNode>)
        requires
            old(self).shell_ok(),
            solution@.len() == 2 * old(self).n() - 1,
            expression_ok(solution@, old(self).modules@, old(self).tree.module_shape),
            normalized(solution@),
            names_each_once(solution@, old(self).n()),
        ensures
            final(self).wf(),
            final(self).costs_current(),
            final(self).shell_ok(),
            final(self).solution@ == solution@,
            final(self).modules == old(self).modules,
            final(self).nets == old(self).nets,
            final(self).tree.module_shape == old(self).tree.module_shape,
    {
        self.solution = solution;
        self.tree.update_everything();
        self.update();
    }

    /// Installs `0 1 V 2 V ... (n-1) V`: all modules in one row.
    pub fn set_solution_all_vertical(&mut self)
        requires
            old(self).shell_ok(),
            forall|id: int|
                0 <= id < old(self).n() ==> #[trigger] old(self).modules@[id].width + old(self).modules@[id].height
                    <= crate::geometry::EXTENT_LIMIT && leaf_bound(old(self).tree.module_shape, old(self).modules@[id]) <= unit(
                    2 * old(self).n() - 1,
                ),
        ensures
            final(self).wf(),
            final(self).costs_current(),
            final(self).shell_ok(),
            final(self).solution@ == all_vertical(old(self).n()),
            final(self).modules == old(self).modules,
            final(self).nets == old(self).nets,
            final(self).tree.module_shape == old(self).tree.module_shape,
    {
        let n = self.modules.len();
        let mut solution: Vec<ModuleNode> = Vec::new();
        solution.push(ModuleNode::Module(0));
        let mut i: usize = 1;
        while i < n
            invariant
                1 <= i <= n,
                n == self.n(),
                2 * n - 1 < usize::MAX / 2,
                solution@ == all_vertical(i as int),
            decreases n - i,
        {
            solution.push(ModuleNode::Module(i));
            solution.push(ModuleNode::V());
            assert(solution@ =~= all_vertical(i as int + 1));
            i += 1;
        }
        proof {
            let s = all_vertical(n as int);
            lemma_all_vertical_valid(n as int);
            assert forall|k: int| 0 <= k < s.len() && (#[trigger] s[k] is Module) implies module_id(s[k]) < n by {
                if k > 0 {
                    assert(k % 2 == 1);
                    assert((k + 1) / 2 < n);
                }
            }
            assert forall|a: int, b: int|
                0 <= a < b < s.len() && (#[trigger] s[a] is Module) && (#[trigger] s[b] is Module) implies s[a] != s[b] by {
                assert(b % 2 == 1);
                if a > 0 {
                    assert(a % 2 == 1);
                    assert((a + 1) / 2 < (b + 1) / 2);
                }
            }
            assert forall|id: int| 0 <= id < n implies #[trigger] names(s, id) by {
                if id == 0 {
                    assert(s[0] == ModuleNode::Module(0));
                } else {
                    let a = 2 * id - 1;
                    assert(a % 2 == 1 && (a + 1) / 2 == id);
                    assert(s[a] == ModuleNode::Module(id as usize));
                }
            }
        }
        self.install(solution);
    }
}


proof fn lemma_cuts_after_swap(s: Seq<ModuleNode>, a: int, k: int)
    requires
        0 <= a,
        a + 2 <= k <= s.len(),
    ensures
        cuts(swap_tokens(s, a, a + 1), k) == cuts(s, k),
    decreases k,
{
    let t = swap_tokens(s, a, a + 1);
    if k > a + 2 {
        lemma_cuts_after_swap(s, a, k - 1);
    } else {
        crate::postfix::lemma_cuts_same(s, t, a);
        assert(cuts(t, a + 1) == cuts(t, a) + if t[a] is Module { 0int } else { 1int });
        assert(cuts(s, a + 1) == cuts(s, a) + if s[a] is Module { 0int } else { 1int });
    }
}

/// Swapping a module with the cut beside it keeps the expression valid
/// when the cut still finds two operands: always when the cut moves right,
/// and when the depth before it is two or more when it moves left.
proof fn lemma_swap_valid(s: Seq<ModuleNode>, a: int)
    requires
        valid_postfix(s),
        0 <= a,
        a + 1 < s.len(),
        (s[a] is Module) != (s[a + 1] is Module),
        s[a] is Module ==> depth(s, a) >= 2,
    ensures
        valid_postfix(swap_tokens(s, a, a + 1)),
{
    let t = swap_tokens(s, a, a + 1);
    let n = s.len() as int;
    lemma_depth_of_valid(s, n);
    crate::postfix::lemma_cuts_same(s, t, a);
    assert forall|j: int| 0 <= j < n && !(#[trigger] t[j] is Module) implies depth(t, j) >= 2 by {
        if j < a {
            crate::postfix::lemma_cuts_same(s, t, j);
            assert(depth(s, j) >= 2);
        } else if j == a {
        } else if j == a + 1 {
            assert(cuts(t, a + 1) == cuts(t, a) + if t[a] is Module { 0int } else { 1int });
            assert(depth(s, a) >= 2);
        } else {
            lemma_cuts_after_swap(s, a, j);
            assert(depth(s, j) >= 2);
        }
    }
    lemma_cuts_after_swap(s, a, n);
    assert(depth(s, n) == 1);
    lemma_valid_by_depth(t);
}

/// An edit that keeps which tokens are modules, and names only existing
/// modules, keeps the expression valid.
proof fn lemma_pattern_expression_ok(s: Seq<ModuleNode>, t: Seq<ModuleNode>, ms: Seq<Rectangle>, kind: ModuleShape)
    requires
        expression_ok(s, ms, kind),
        s.len() == t.len(),
        forall|j: int| 0 <= j < s.len() ==> (#[trigger] s[j] is Module) == (t[j] is Module),
        forall|j: int| 0 <= j < t.len() && (#[trigger] t[j] is Module) ==> module_id(t[j]) < ms.len(),
    ensures
        expression_ok(t, ms, kind),
{
    crate::postfix::lemma_same_pattern(s, t, s.len() as int);
    assert forall|k: int| 0 <= k < t.len() && !(t[k] is Module) implies (#[trigger] crate::postfix::stack_after(t, k)).len() >= 2 by {
        crate::postfix::lemma_same_pattern(s, t, k);
        assert(!(s[k] is Module));
        assert(crate::postfix::stack_after(s, k).len() >= 2);
    }
}

/// Every cut of the run that starts at `a` is marked when `a` is and the
/// marks are closed upwards.
proof fn lemma_chain_marked(t0: &SlicingTree, t: &SlicingTree, s: Seq<ModuleNode>, ms: Seq<Rectangle>, a: int, p: int)
    requires
        t0.consistent(s, ms),
        all_clean(t0),
        t.parent == t0.parent,
        t.update@.len() == t0.update@.len(),
        marks_closed(t, t0.update@),
        0 <= a <= p < chain_end(s, a),
        t.update@[a],
    ensures
        t.update@[p],
    decreases p - a,
{
    lemma_chain_facts(s, a, p);
    if p > a {
        lemma_chain_marked(t0, t, s, ms, a, p - 1);
        assert(t0.node_ok(s, ms, p));
        assert(t0.links_ok(s, p));
        assert(crate::postfix::prefix_ok(s, p + 1));
        crate::postfix::lemma_children(s, p);
        assert(t.parent@[p - 1] == p);
        assert(!t0.update@[p - 1]);
    }
}

proof fn lemma_chain_facts(s: Seq<ModuleNode>, a: int, p: int)
    requires
        0 <= a <= p < chain_end(s, a),
    ensures
        chain_end(s, a) <= s.len(),
        !(s[p] is Module),
    decreases p - a,
{
    lemma_chain_end_bound(s, a);
    if p > a {
        assert(!(s[a] is Module));
        lemma_chain_facts(s, a + 1, p);
    } else {
        assert(a < s.len());
    }
}

proof fn lemma_chain_end_bound(s: Seq<ModuleNode>, a: int)
    requires
        0 <= a,
    ensures
        a <= chain_end(s, a),
        a < s.len() ==> chain_end(s, a) <= s.len(),
    decreases s.len() - a,
{
    if a < s.len() && !(s[a] is Module) {
        lemma_chain_end_bound(s, a + 1);
    }
}

impl PolishExpression {
    /// Applies a move, marks what it invalidates, and brings the tree,
    /// placement and costs up to date. Swaps of two modules and inversions of
    /// a chain keep the tree's shape and recompute only the marked spines; a
    /// swap of a module with a cut reshapes the tree and recomputes it all.
    #[verifier::spinoff_prover]
    pub fn apply_pe_move(&mut self, m: &PEMoveType)
        requires
            old(self).wf(),
            old(self).costs_current(),
            old(self).shell_ok(),
            m.fits(old(self).solution@),
        ensures
            final(self).wf(),
            final(self).costs_current(),
            final(self).shell_ok(),
            final(self).solution@ == m.applied(old(self).solution@),
            m.fits(final(self).solution@),
            final(self).modules == old(self).modules,
            final(self).nets == old(self).nets,
            final(self).tree.module_shape == old(self).tree.module_shape,
    {
        let ghost s0 = self.solution@;
        let ghost t0 = self.tree;
        let ghost ms = self.modules@;
        proof {
            lemma_move_normalized(s0, *m);
            lemma_move_names(s0, *m, self.n());
        }
        m.apply(&mut self.solution);
        let ghost s1 = self.solution@;
        match *m {
            PEMoveType::SwapOperands(a, b) => {
                self.tree.update_swap_leafs(a, b);
                proof {
                    lemma_pattern_expression_ok(s0, s1, ms, t0.module_shape);
                    lemma_marked_clean_consistent(&t0, &self.tree, s0, s1, ms);
                }
            },
            PEMoveType::InvertChain(a) => {
                self.tree.update_invert_chain(a);
                proof {
                    lemma_chain_end_bound(s0, a as int);
                    assert forall|j: int| 0 <= j < s0.len() implies (#[trigger] s0[j] is Module) == (s1[j] is Module) by {
                        if a <= j < chain_end(s0, a as int) {
                            lemma_chain_facts(s0, a as int, j);
                        }
                    }
                    lemma_pattern_expression_ok(s0, s1, ms, t0.module_shape);
                    assert forall|j: int| 0 <= j < s0.len() && s0[j] != s1[j] implies #[trigger] self.tree.update@[j] by {
                        lemma_chain_marked(&t0, &self.tree, s0, ms, a as int, j);
                    }
                    lemma_marked_clean_consistent(&t0, &self.tree, s0, s1, ms);
                }
            },
            PEMoveType::SwapOperandOperator(a, b) => {
                self.tree.update_everything();
                proof {
                    assert(expression_ok(s1, ms, t0.module_shape));
                }
            },
        }
        self.update();
        proof {
            match *m {
                PEMoveType::SwapOperandOperator(a, b) => {
                    assert(swap_tokens(s1, a as int, b as int) =~= s0);
                },
                _ => {},
            }
        }
    }
}


/// The expression that lists all modules and then alternating cuts:
/// `0 1 ... (n-1) H V H ...`.
pub open spec fn operator_top(n: int) -> Seq<ModuleNode> {
    Seq::new(
        (2 * n - 1) as nat,
        |k: int|
            if k < n {
                ModuleNode::Module(k as usize)
            } else if (k - n) % 2 == 0 {
                ModuleNode::H()
            } else {
                ModuleNode::V()
            },
    )
}

/// The expression that recursive bisection of `order[left..right]` gives:
/// halves are joined by cuts of alternating orientation, `split` at the top.
pub open spec fn pe_bisect(order: Seq<usize>, left: int, right: int, split: ModuleNode) -> Seq<ModuleNode>
    decreases right - left,
{
    if right - left <= 1 {
        seq![ModuleNode::Module(order[left])]
    } else if right - left == 2 {
        seq![ModuleNode::Module(order[left]), ModuleNode::Module(order[left + 1]), split]
    } else {
        let mid = (left + right + 1) / 2;
        pe_bisect(order, left, mid, inverted(split)) + pe_bisect(order, mid, right, inverted(split)) + seq![split]
    }
}

/// The last module position below `k`, or -1.
pub open spec fn last_module_before(s: Seq<ModuleNode>, k: int) -> int
    decreases k,
{
    if k <= 0 {
        -1
    } else if s[k - 1] is Module {
        k - 1
    } else {
        last_module_before(s, k - 1)
    }
}

/// The pairs of consecutive modules among the first `k` tokens, in order.
pub open spec fn module_pairs(s: Seq<ModuleNode>, k: int) -> Seq<(usize, usize)>
    decreases k,
{
    if k <= 0 {
        Seq::empty()
    } else {
        let p = module_pairs(s, k - 1);
        if s[k - 1] is Module && last_module_before(s, k - 1) >= 0 {
            p.push((last_module_before(s, k - 1) as usize, (k - 1) as usize))
        } else {
            p
        }
    }
}

/// The positions below `k` of cuts that directly follow a module, in order.
pub open spec fn chain_starts(s: Seq<ModuleNode>, k: int) -> Seq<usize>
    decreases k,
{
    if k <= 2 {
        Seq::empty()
    } else {
        let p = chain_starts(s, k - 1);
        if s[k - 2] is Module && !(s[k - 1] is Module) {
            p.push((k - 1) as usize)
        } else {
            p
        }
    }
}

/// No two cuts of the same orientation stand next to each other.
pub open spec fn normalized(s: Seq<ModuleNode>) -> bool {
    forall|k: int|
        0 <= k && k + 1 < s.len() && !(#[trigger] s[k] is Module) && !(s[k + 1] is Module) ==> s[k] != s[k + 1]
}

/// The module at `a` and the cut at `a + 1`, or the cut at `a` and the module
/// at `a + 1`, can be swapped: a cut moved left still finds two operands,
/// and the cut does not land beside a cut of its own orientation.
pub open spec fn legal_swap(s: Seq<ModuleNode>, a: int) -> bool {
    &&& 1 <= a
    &&& a + 1 < s.len()
    &&& ((s[a] is Module && !(s[a + 1] is Module) && depth(s, a) >= 2 && s[a + 1] != s[a - 1]) || (!(
    s[a] is Module) && s[a + 1] is Module && (a + 2 >= s.len() || s[a] != s[a + 2])))
}

/// The legal module-cut swap positions below `k`, in order.
pub open spec fn legal_swaps(s: Seq<ModuleNode>, k: int) -> Seq<usize>
    decreases k,
{
    if k <= 1 {
        Seq::empty()
    } else {
        let p = legal_swaps(s, k - 1);
        if legal_swap(s, k - 1) {
            p.push((k - 1) as usize)
        } else {
            p
        }
    }
}

/// A move that changes the expression: a swap of two consecutive modules, an
/// inversion of a chain that starts right after a module, or a legal
/// module-cut swap.
pub open spec fn real_pe_move(s: Seq<ModuleNode>, m: PEMoveType) -> bool {
    match m {
        PEMoveType::InvertChain(a) => 2 <= a < s.len() && s[a - 1] is Module && !(s[a as int] is Module),
        PEMoveType::SwapOperands(a, b) => a < b < s.len() && s[a as int] is Module && s[b as int] is Module
            && forall|r: int| a < r < b ==> !(#[trigger] s[r] is Module),
        PEMoveType::SwapOperandOperator(a, b) => b == a + 1 && legal_swap(s, a as int),
    }
}

/// The move that the draws give; see `PolishExpression::move_from_draws`.
pub open spec fn pe_move_of(s: Seq<ModuleNode>, kind: usize, kp: usize, ks: usize, kw: usize) -> PEMoveType {
    let n = s.len() as int;
    let pairs = module_pairs(s, n);
    let starts = chain_starts(s, n);
    let swaps = legal_swaps(s, n);
    let adjacent = if pairs.len() == 0 {
        PEMoveType::InvertChain(0)
    } else {
        let p = pairs[(kp as int) % (pairs.len() as int)];
        PEMoveType::SwapOperands(p.0, p.1)
    };
    if kind == 0 {
        adjacent
    } else if kind == 1 {
        if starts.len() == 0 {
            adjacent
        } else {
            PEMoveType::InvertChain(starts[(ks as int) % (starts.len() as int)])
        }
    } else {
        if swaps.len() == 0 {
            adjacent
        } else {
            let a = swaps[(kw as int) % (swaps.len() as int)];
            PEMoveType::SwapOperandOperator(a, (a + 1) as usize)
        }
    }
}

proof fn lemma_last_module(s: Seq<ModuleNode>, k: int)
    requires
        0 <= k <= s.len(),
    ensures
        -1 <= last_module_before(s, k) < k,
        last_module_before(s, k) >= 0 ==> s[last_module_before(s, k)] is Module,
        forall|r: int| last_module_before(s, k) < r < k ==> !(#[trigger] s[r] is Module),
    decreases k,
{
    if k > 0 {
        lemma_last_module(s, k - 1);
    }
}

proof fn lemma_module_pairs(s: Seq<ModuleNode>, k: int)
    requires
        0 <= k <= s.len() < usize::MAX,
    ensures
        forall|i: int|
            0 <= i < module_pairs(s, k).len() ==> real_pe_move(
                s,
                PEMoveType::SwapOperands(#[trigger] module_pairs(s, k)[i].0, module_pairs(s, k)[i].1),
            ),
        k >= 2 && s[0] is Module && s[1] is Module ==> module_pairs(s, k).len() >= 1,
    decreases k,
{
    if k > 0 {
        lemma_module_pairs(s, k - 1);
        lemma_last_module(s, k - 1);
        let p = module_pairs(s, k - 1);
        let q = module_pairs(s, k);
        assert forall|i: int|
            0 <= i < q.len() implies real_pe_move(s, PEMoveType::SwapOperands(#[trigger] q[i].0, q[i].1)) by {
            if i < p.len() {
                assert(q[i] == p[i]);
                assert(real_pe_move(s, PEMoveType::SwapOperands(p[i].0, p[i].1)));
            } else {
                let lm = last_module_before(s, k - 1);
                assert(q[i] == (lm as usize, (k - 1) as usize));
            }
        }
        if k == 2 && s[0] is Module && s[1] is Module {
            assert(last_module_before(s, 1) == 0);
        }
    }
}

proof fn lemma_chain_starts(s: Seq<ModuleNode>, k: int)
    requires
        0 <= k <= s.len() < usize::MAX,
    ensures
        forall|i: int|
            0 <= i < chain_starts(s, k).len() ==> real_pe_move(s, PEMoveType::InvertChain(#[trigger] chain_starts(s, k)[i])),
    decreases k,
{
    if k > 2 {
        lemma_chain_starts(s, k - 1);
        let p = chain_starts(s, k - 1);
        let q = chain_starts(s, k);
        assert forall|i: int| 0 <= i < q.len() implies real_pe_move(s, PEMoveType::InvertChain(#[trigger] q[i])) by {
            if i < p.len() {
                assert(q[i] == p[i]);
                assert(real_pe_move(s, PEMoveType::InvertChain(p[i])));
            }
        }
    }
}

proof fn lemma_legal_swaps(s: Seq<ModuleNode>, k: int)
    requires
        0 <= k <= s.len() < usize::MAX,
    ensures
        forall|i: int| 0 <= i < legal_swaps(s, k).len() ==> legal_swap(s, #[trigger] legal_swaps(s, k)[i] as int),
        forall|a: int| a < k && legal_swap(s, a) ==> legal_swaps(s, k).len() >= 1,
    decreases k,
{
    if k > 1 {
        lemma_legal_swaps(s, k - 1);
        let p = legal_swaps(s, k - 1);
        let q = legal_swaps(s, k);
        assert forall|i: int| 0 <= i < q.len() implies legal_swap(s, #[trigger] q[i] as int) by {
            if i < p.len() {
                assert(q[i] == p[i]);
                assert(legal_swap(s, p[i] as int));
            }
        }
    }
}

/// The candidate lists of a valid expression hold real moves; there is a
/// pair of consecutive modules when there are two modules; and the legal
/// swaps are listed whenever there is one.
proof fn lemma_candidates(s: Seq<ModuleNode>)
    requires
        valid_postfix(s),
    ensures
        forall|i: int|
            0 <= i < module_pairs(s, s.len() as int).len() ==> real_pe_move(
                s,
                PEMoveType::SwapOperands(
                    #[trigger] module_pairs(s, s.len() as int)[i].0,
                    module_pairs(s, s.len() as int)[i].1,
                ),
            ),
        s.len() >= 3 ==> module_pairs(s, s.len() as int).len() >= 1,
        forall|i: int|
            0 <= i < chain_starts(s, s.len() as int).len() ==> real_pe_move(
                s,
                PEMoveType::InvertChain(#[trigger] chain_starts(s, s.len() as int)[i]),
            ),
        forall|i: int|
            0 <= i < legal_swaps(s, s.len() as int).len() ==> legal_swap(s, #[trigger] legal_swaps(s, s.len() as int)[i] as int),
        legal_swaps(s, s.len() as int).len() == 0 <==> forall|a: int| !legal_swap(s, a),
        s[0] is Module,
{
    let n = s.len() as int;
    lemma_module_pairs(s, n);
    lemma_chain_starts(s, n);
    lemma_legal_swaps(s, n);
    lemma_depth_of_valid(s, n);
    assert(crate::postfix::cuts(s, 0) == 0);
    assert(s[0] is Module) by {
        if !(s[0] is Module) {
            assert(depth(s, 0) >= 2);
        }
    }
    if n >= 3 {
        assert(crate::postfix::cuts(s, 0) == 0);
        assert(s[0] is Module) by {
            if !(s[0] is Module) {
                assert(depth(s, 0) >= 2);
            }
        }
        assert(s[1] is Module) by {
            assert(cuts(s, 1) == cuts(s, 0) + if s[0] is Module { 0int } else { 1int });
            if !(s[1] is Module) {
                assert(depth(s, 1) >= 2);
            }
        }
    }
    if legal_swaps(s, n).len() != 0 {
        assert(legal_swap(s, legal_swaps(s, n)[0] as int));
    }
}

/// A legal module-cut swap keeps the expression valid and, when no two equal
/// cuts stood next to each other before, none do after.
pub proof fn lemma_legal_swap_normalized(s: Seq<ModuleNode>, a: int)
    requires
        valid_postfix(s),
        legal_swap(s, a),
    ensures
        valid_postfix(swap_tokens(s, a, a + 1)),
        normalized(s) ==> normalized(swap_tokens(s, a, a + 1)),
{
    lemma_swap_valid(s, a);
    let t = swap_tokens(s, a, a + 1);
    if normalized(s) {
        assert forall|k: int|
            0 <= k && k + 1 < t.len() && !(#[trigger] t[k] is Module) && !(t[k + 1] is Module) implies t[k] != t[k + 1] by {
            if k + 1 < a || k > a + 1 {
                assert(t[k] == s[k] && t[k + 1] == s[k + 1]);
            }
        }
    }
}

proof fn lemma_cuts_concat(a: Seq<ModuleNode>, b: Seq<ModuleNode>, k: int)
    requires
        0 <= k <= a.len() + b.len(),
    ensures
        cuts(a + b, k) == if k <= a.len() { cuts(a, k) } else { cuts(a, a.len() as int) + cuts(b, k - a.len()) },
    decreases k,
{
    if k > 0 {
        lemma_cuts_concat(a, b, k - 1);
        if k > a.len() {
            assert((a + b)[k - 1] == b[k - 1 - a.len()]);
            assert(cuts(b, k - a.len()) == cuts(b, k - 1 - a.len()) + if b[k - 1 - a.len()] is Module { 0int } else { 1int });
            assert(cuts(b, 0) == 0);
        } else {
            assert((a + b)[k - 1] == a[k - 1]);
        }
    }
}

/// Two valid expressions joined by a cut make a valid expression.
#[verifier::spinoff_prover]
proof fn lemma_join_valid(a: Seq<ModuleNode>, b: Seq<ModuleNode>, c: ModuleNode)
    requires
        valid_postfix(a),
        valid_postfix(b),
        is_cut(c),
        a.len() + b.len() + 1 < usize::MAX,
    ensures
        valid_postfix(a + b + seq![c]),
{
    let u = a + b + seq![c];
    let ab = a + b;
    let la = a.len() as int;
    let lb = b.len() as int;
    lemma_depth_of_valid(a, la);
    lemma_depth_of_valid(b, lb);
    assert(u =~= ab + seq![c]);
    assert forall|k: int| 0 <= k <= la + lb implies cuts(u, k) == cuts(ab, k) by {
        lemma_cuts_concat(ab, seq![c], k);
    }
    assert forall|j: int| 0 <= j < u.len() && !(#[trigger] u[j] is Module) implies depth(u, j) >= 2 by {
        if j < la {
            lemma_cuts_concat(a, b, j);
            assert(u[j] == a[j]);
            assert(depth(a, j) >= 2);
        } else if j < la + lb {
            lemma_cuts_concat(a, b, j);
            assert(u[j] == b[j - la]);
            assert(depth(b, j - la) >= 2);
        } else {
            lemma_cuts_concat(a, b, la + lb);
        }
    }
    lemma_cuts_concat(ab, seq![c], la + lb + 1);
    lemma_cuts_concat(a, b, la + lb);
    assert(cuts(seq![c], 1) == cuts(seq![c], 0) + 1);
    lemma_valid_by_depth(u);
}

/// Recursive bisection of `order[left..right]` lists those modules in that
/// order, gives a valid expression of `2 (right - left) - 1` tokens with no
/// two equal cuts side by side, starts with a module and, with two modules
/// or more, ends with `split`.
#[verifier::spinoff_prover]
#[verifier::rlimit(80)]
pub proof fn lemma_pe_bisect(order: Seq<usize>, left: int, right: int, split: ModuleNode)
    requires
        0 <= left < right <= order.len(),
        2 * (right - left) < usize::MAX,
        is_cut(split),
    ensures
        pe_bisect(order, left, right, split).len() == 2 * (right - left) - 1,
        valid_postfix(pe_bisect(order, left, right, split)),
        normalized(pe_bisect(order, left, right, split)),
        pe_bisect(order, left, right, split)[0] is Module,
        right - left >= 2 ==> pe_bisect(order, left, right, split).last() == split,
        right - left == 1 ==> pe_bisect(order, left, right, split).last() is Module,
        forall|q: int|
            0 <= q < pe_bisect(order, left, right, split).len() && (#[trigger] pe_bisect(order, left, right, split)[q] is Module)
                ==> exists|j: int| left <= j < right && pe_bisect(order, left, right, split)[q] == ModuleNode::Module(order[j]),
        module_ids(pe_bisect(order, left, right, split)) == order.subrange(left, right),
    decreases right - left,
{
    let t = pe_bisect(order, left, right, split);
    if right - left == 1 {
        assert(cuts(t, 1) == cuts(t, 0) + 0);
        lemma_valid_by_depth(t);
        assert(module_ids(t) == module_ids(t.drop_last()).push(order[left]));
        assert(t.drop_last() =~= Seq::<ModuleNode>::empty());
        assert(module_ids(t) =~= order.subrange(left, right));
    } else if right - left == 2 {
        let a = seq![ModuleNode::Module(order[left])];
        let b = seq![ModuleNode::Module(order[left + 1])];
        lemma_pe_bisect(order, left, left + 1, split);
        lemma_pe_bisect(order, left + 1, right, split);
        assert(t =~= a + b + seq![split]);
        lemma_join_valid(a, b, split);
        lemma_ids_join(a, b, split);
        assert(order.subrange(left, left + 1) + order.subrange(left + 1, right) =~= order.subrange(left, right));
    } else {
        let mid = (left + right + 1) / 2;
        let inv = inverted(split);
        let a = pe_bisect(order, left, mid, inv);
        let b = pe_bisect(order, mid, right, inv);
        lemma_pe_bisect(order, left, mid, inv);
        lemma_pe_bisect(order, mid, right, inv);
        assert(t == a + b + seq![split]);
        lemma_join_valid(a, b, split);
        lemma_ids_join(a, b, split);
        assert(order.subrange(left, mid) + order.subrange(mid, right) =~= order.subrange(left, right));
        let la = a.len() as int;
        let lb = b.len() as int;
        assert forall|k: int|
            0 <= k && k + 1 < t.len() && !(#[trigger] t[k] is Module) && !(t[k + 1] is Module) implies t[k] != t[k + 1] by {
            if k + 1 < la {
                assert(t[k] == a[k] && t[k + 1] == a[k + 1]);
            } else if k + 1 == la {
                assert(t[k + 1] == b[0]);
            } else if k + 1 < la + lb {
                assert(t[k] == b[k - la] && t[k + 1] == b[k + 1 - la]);
            } else {
                assert(t[k] == b.last());
            }
        }
        assert forall|q: int| 0 <= q < t.len() && (#[trigger] t[q] is Module) implies exists|j: int|
            left <= j < right && t[q] == ModuleNode::Module(order[j]) by {
            if q < la {
                assert(t[q] == a[q]);
            } else {
                assert(t[q] == b[q - la]);
            }
        }
    }
}

/// `t` has `2 (right - left) - 1` tokens, lists the modules of
/// `order[left..right]` in order, is valid with no two equal cuts side by
/// side, and ends with `split` when it joins two modules or more.
pub open spec fn bisection_ok(order: Seq<usize>, left: int, right: int, split: ModuleNode, t: Seq<ModuleNode>) -> bool {
    &&& t.len() == 2 * (right - left) - 1
    &&& valid_postfix(t)
    &&& normalized(t)
    &&& module_ids(t) == order.subrange(left, right)
    &&& right - left >= 2 ==> t.last() == split
}

/// The module ids of an expression, in order.
pub open spec fn module_ids(s: Seq<ModuleNode>) -> Seq<usize>
    decreases s.len(),
{
    if s.len() == 0 {
        Seq::empty()
    } else {
        match s.last() {
            ModuleNode::Module(id) => module_ids(s.drop_last()).push(id),
            _ => module_ids(s.drop_last()),
        }
    }
}

proof fn lemma_ids_concat(a: Seq<ModuleNode>, b: Seq<ModuleNode>)
    ensures
        module_ids(a + b) == module_ids(a) + module_ids(b),
    decreases b.len(),
{
    if b.len() == 0 {
        assert(a + b =~= a);
        assert(module_ids(b) =~= Seq::<usize>::empty());
        assert(module_ids(a) + module_ids(b) =~= module_ids(a));
    } else {
        lemma_ids_concat(a, b.drop_last());
        assert((a + b).drop_last() =~= a + b.drop_last());
        assert((a + b).last() == b.last());
        match b.last() {
            ModuleNode::Module(id) => {
                assert(module_ids(a) + module_ids(b) =~= (module_ids(a) + module_ids(b.drop_last())).push(id));
            },
            _ => {},
        }
    }
}

proof fn lemma_ids_join(a: Seq<ModuleNode>, b: Seq<ModuleNode>, c: ModuleNode)
    requires
        is_cut(c),
    ensures
        module_ids(a + b + seq![c]) == module_ids(a) + module_ids(b),
{
    lemma_ids_concat(a, b);
    let u = a + b + seq![c];
    assert(u.drop_last() =~= a + b);
}

impl PolishExpression {
    /// The representation is consistent, placed and costed.
    pub open spec fn ready_spec(&self) -> bool {
        self.wf() && self.costs_current() && self.shell_ok()
    }

    /// The expression of recursive bisection over `order[left..right]`.
    fn recursive_bisection(order: &Vec<usize>, left: usize, right: usize, split: ModuleNode) -> (r: Vec<ModuleNode>)
        requires
            left < right <= order@.len(),
            is_cut(split),
        ensures
            r@ == pe_bisect(order@, left as int, right as int, split),
            2 * (right - left) < usize::MAX ==> bisection_ok(order@, left as int, right as int, split, r@),
    {
        let r = PolishExpression::bisect_expression(order, left, right, split);
        proof {
            if 2 * (right - left) < usize::MAX {
                lemma_pe_bisect(order@, left as int, right as int, split);
            }
        }
        r
    }

    /// The expression of recursive bisection, built by recursion.
    fn bisect_expression(order: &Vec<usize>, left: usize, right: usize, split: ModuleNode) -> (r: Vec<ModuleNode>)
        requires
            left < right <= order@.len(),
            is_cut(split),
        ensures
            r@ == pe_bisect(order@, left as int, right as int, split),
        decreases right - left,
    {
        if right - left == 1 {
            vec![ModuleNode::Module(order[left])]
        } else if right - left == 2 {
            vec![ModuleNode::Module(order[left]), ModuleNode::Module(order[left + 1]), split]
        } else {
            let mid = left + (right - left) / 2 + (right - left) % 2;
            let inv = split.invert();
            assert(inv == inverted(split));
            let mut s1 = PolishExpression::bisect_expression(order, left, mid, inv);
            let mut s2 = PolishExpression::bisect_expression(order, mid, right, inv);
            s1.append(&mut s2);
            s1.push(split);
            s1
        }
    }

    /// Installs the expression of recursive bisection over `order`, with a
    /// horizontal cut at the top. Returns false, changing nothing, when
    /// `order` does not hold one entry per module, or the expression does not
    /// name every module exactly once (`order` is not a permutation).
    pub fn set_solution_recursive_bisection(&mut self, order: &Vec<usize>) -> (r: bool)
        requires
            old(self).ready_spec(),
        ensures
            final(self).ready_spec(),
            r == (order@.len() == old(self).n() && (forall|k: int| 0 <= k < order@.len() ==> #[trigger] order@[k] < old(self).n())
                && names_each_once(pe_bisect(order@, 0, old(self).n(), ModuleNode::H()), old(self).n())),
            r ==> final(self).solution@ == pe_bisect(order@, 0, old(self).n(), ModuleNode::H()),
            !r ==> *final(self) == *old(self),
            final(self).modules == old(self).modules,
            final(self).nets == old(self).nets,
    {
        let n = self.modules.len();
        if order.len() != n {
            return false;
        }
        let mut k: usize = 0;
        while k < n
            invariant
                n == order@.len(),
                n == self.n(),
                self.ready_spec(),
                k <= n,
                forall|j: int| 0 <= j < k ==> #[trigger] order@[j] < n,
            decreases n - k,
        {
            if order[k] >= n {
                return false;
            }
            k += 1;
        }
        let solution = PolishExpression::recursive_bisection(order, 0, n, ModuleNode::H());
        proof {
            let t = solution@;
            lemma_pe_bisect(order@, 0, n as int, ModuleNode::H());
            let ms = self.modules@;
            let s0 = self.solution@;
            assert(expression_ok(s0, ms, self.tree.module_shape));
            assert forall|q: int| 0 <= q < t.len() && (#[trigger] t[q] is Module) implies module_id(t[q]) < ms.len() by {
                let j = choose|j: int| 0 <= j < n && t[q] == ModuleNode::Module(order@[j]);
                assert(order@[j] < n);
            }
            assert(expression_ok(t, ms, self.tree.module_shape));
        }
        if !names_each_once_check(&solution, n) {
            return false;
        }
        self.install(solution);
        true
    }

    /// Installs `0 1 ... (n-1) H V H ...`. Returns false, changing nothing,
    /// when the modules do not fit that expression.
    pub fn set_solution_operator_top(&mut self) -> (r: bool)
        requires
            old(self).ready_spec(),
        ensures
            final(self).ready_spec(),
            r == (expression_ok(operator_top(old(self).n()), old(self).modules@, old(self).tree.module_shape) && normalized(
                operator_top(old(self).n()),
            ) && names_each_once(operator_top(old(self).n()), old(self).n())),
            r ==> final(self).solution@ == operator_top(old(self).n()),
            !r ==> *final(self) == *old(self),
            final(self).modules == old(self).modules,
            final(self).nets == old(self).nets,
    {
        let n = self.modules.len();
        let mut solution: Vec<ModuleNode> = Vec::new();
        let mut i: usize = 0;
        while i < n
            invariant
                i <= n,
                n == self.n(),
                2 * n - 1 < usize::MAX / 2,
                solution@.len() == i,
                forall|k: int| 0 <= k < i ==> #[trigger] solution@[k] == operator_top(n as int)[k],
            decreases n - i,
        {
            solution.push(ModuleNode::Module(i));
            i += 1;
        }
        let mut j: usize = 0;
        while j + 1 < n
            invariant
                j + 1 <= n,
                n == self.n(),
                2 * n - 1 < usize::MAX / 2,
                solution@.len() == n + j,
                forall|k: int| 0 <= k < n + j ==> #[trigger] solution@[k] == operator_top(n as int)[k],
            decreases n - j,
        {
            if j % 2 == 0 {
                solution.push(ModuleNode::H());
            } else {
                solution.push(ModuleNode::V());
            }
            j += 1;
        }
        assert(solution@ =~= operator_top(n as int));
        if !is_valid_expression(&solution, &self.modules, self.tree.module_shape) {
            return false;
        }
        self.install(solution);
        true
    }

    /// The pairs of consecutive modules, in order.
    fn module_pair_list(&self) -> (r: Vec<(usize, usize)>)
        ensures
            r@ == module_pairs(self.solution@, self.solution@.len() as int),
    {
        let ghost s = self.solution@;
        let len = self.solution.len();
        let mut pairs: Vec<(usize, usize)> = Vec::new();
        let mut prev: usize = len;
        let mut b: usize = 0;
        while b < len
            invariant
                len == s.len(),
                s == self.solution@,
                b <= len,
                pairs@ == module_pairs(s, b as int),
                prev == len <==> last_module_before(s, b as int) == -1,
                prev != len ==> prev == last_module_before(s, b as int),
                last_module_before(s, b as int) < b,
            decreases len - b,
        {
            if self.solution[b].is_module() {
                if prev < len {
                    pairs.push((prev, b));
                }
                prev = b;
            }
            b += 1;
        }
        pairs
    }

    /// The positions of cuts that directly follow a module, in order.
    fn chain_start_list(&self) -> (r: Vec<usize>)
        ensures
            r@ == chain_starts(self.solution@, self.solution@.len() as int),
    {
        let ghost s = self.solution@;
        let len = self.solution.len();
        let mut pos: Vec<usize> = Vec::new();
        let mut i: usize = 2;
        if len < 2 {
            return pos;
        }
        while i < len
            invariant
                len == s.len(),
                s == self.solution@,
                2 <= i <= len,
                pos@ == chain_starts(s, i as int),
            decreases len - i,
        {
            if self.solution[i - 1].is_module() && !self.solution[i].is_module() {
                pos.push(i);
            }
            i += 1;
        }
        pos
    }

    /// The positions `a` where a module and the cut beside it can be swapped.
    fn legal_swap_list(&self) -> (r: Vec<usize>)
        requires
            self.ready_spec(),
        ensures
            r@ == legal_swaps(self.solution@, self.solution@.len() as int),
    {
        let ghost s = self.solution@;
        let len = self.solution.len();
        let mut pos: Vec<usize> = Vec::new();
        if len < 1 {
            return pos;
        }
        let mut a: usize = 1;
        while a < len
            invariant
                len == s.len(),
                s == self.solution@,
                self.ready_spec(),
                1 <= a <= len,
                len < usize::MAX / 2,
                pos@ == legal_swaps(s, a as int),
            decreases len - a,
        {
            if a + 1 < len {
                let l = self.solution[a];
                let r = self.solution[a + 1];
                proof {
                    assert(self.num_operators@[a as int] == cuts(s, a as int + 1));
                    assert(cuts(s, a as int + 1) == cuts(s, a as int) + if s[a as int] is Module { 0int } else { 1int });
                }
                if l.is_module() && !r.is_module() && 2 * (self.num_operators[a] as u128) + 1 < a as u128 {
                    if r != self.solution[a - 1] {
                        pos.push(a);
                    }
                } else if !l.is_module() && r.is_module() {
                    if a + 2 >= len || l != self.solution[a + 2] {
                        pos.push(a);
                    }
                }
            }
            a += 1;
        }
        pos
    }

    /// The move that the draws give: `kind` picks a swap of consecutive
    /// modules (0), a chain inversion (1) or a module-cut swap (2), and `kp`,
    /// `ks`, `kw` pick among the candidates of each. When a kind has no
    /// candidate, the swap of consecutive modules is taken.
    pub fn move_from_draws(
        &self,
        kind: usize,
        pairs: &Vec<(usize, usize)>,
        starts: &Vec<usize>,
        swaps: &Vec<usize>,
        kp: usize,
        ks: usize,
        kw: usize,
    ) -> (m: PEMoveType)
        requires
            self.wf(),
            pairs@ == module_pairs(self.solution@, self.solution@.len() as int),
            starts@ == chain_starts(self.solution@, self.solution@.len() as int),
            swaps@ == legal_swaps(self.solution@, self.solution@.len() as int),
        ensures
            m == pe_move_of(self.solution@, kind, kp, ks, kw),
            m.fits(self.solution@),
            self.solution@.len() >= 3 ==> real_pe_move(self.solution@, m),
    {
        let ghost s = self.solution@;
        proof {
            lemma_candidates(s);
        }
        let adjacent = if pairs.len() == 0 {
            PEMoveType::InvertChain(0)
        } else {
            let (a, b) = pairs[kp % pairs.len()];
            PEMoveType::SwapOperands(a, b)
        };
        if kind == 0 {
            adjacent
        } else if kind == 1 {
            if starts.len() == 0 {
                adjacent
            } else {
                PEMoveType::InvertChain(starts[ks % starts.len()])
            }
        } else {
            if swaps.len() == 0 {
                adjacent
            } else {
                let a = swaps[kw % swaps.len()];
                proof {
                    lemma_swap_valid(s, a as int);
                }
                PEMoveType::SwapOperandOperator(a, a + 1)
            }
        }
    }

    /// A swap of a module with a neighbouring cut that keeps the expression
    /// valid and creates no two equal neighbouring cuts, chosen at random;
    /// `None` exactly when there is no such swap.
    pub fn swap_operand_operator(&self) -> (m: Option<PEMoveType>)
        requires
            self.ready_spec(),
        ensures
            m is None <==> forall|a: int| !legal_swap(self.solution@, a),
            match m {
                Some(mv) => mv is SwapOperandOperator && mv.fits(self.solution@) && real_pe_move(self.solution@, mv),
                None => true,
            },
    {
        let ghost s = self.solution@;
        let swaps = self.legal_swap_list();
        proof {
            lemma_candidates(s);
        }
        if swaps.len() == 0 {
            return None;
        }
        let k = random_below(swaps.len());
        let a = swaps[k];
        proof {
            lemma_swap_valid(s, a as int);
            assert(legal_swap(s, a as int));
        }
        Some(PEMoveType::SwapOperandOperator(a, a + 1))
    }

    /// A random move: a swap of consecutive modules, a chain inversion, or a
    /// module-cut swap; a swap of consecutive modules when the drawn kind has
    /// no candidate.
    pub fn random_move(&self) -> (m: PEMoveType)
        requires
            self.ready_spec(),
        ensures
            m.fits(self.solution@),
            self.solution@.len() >= 3 ==> real_pe_move(self.solution@, m),
            exists|kind: usize, kp: usize, ks: usize, kw: usize|
                kind < 3 && (kp == 0 || kp < module_pairs(self.solution@, self.solution@.len() as int).len()) && (ks == 0
                    || ks < chain_starts(self.solution@, self.solution@.len() as int).len()) && (kw == 0 || kw
                    < legal_swaps(self.solution@, self.solution@.len() as int).len()) && m == #[trigger] pe_move_of(
                    self.solution@,
                    kind,
                    kp,
                    ks,
                    kw,
                ),
    {
        let kind = random_below(3);
        let pairs = self.module_pair_list();
        let starts = self.chain_start_list();
        let swaps = self.legal_swap_list();
        let kp = if pairs.len() > 0 { random_below(pairs.len()) } else { 0 };
        let ks = if starts.len() > 0 { random_below(starts.len()) } else { 0 };
        let kw = if swaps.len() > 0 { random_below(swaps.len()) } else { 0 };
        self.move_from_draws(kind, &pairs, &starts, &swaps, kp, ks, kw)
    }

    pub fn get_floor_area(&self) -> (r: Int)
        ensures
            r == self.current_area,
    {
        self.current_area
    }

    /// Twice the half-perimeter wirelength of the current placement.
    pub fn get_floor_wire(&self) -> (r: u128)
        ensures
            r == self.current_wire,
    {
        self.current_wire
    }

    pub fn get_floorplan(&self) -> (r: crate::geometry::Floorplan)
        ensures
            r@ == self.tree.placement@,
    {
        crate::sequence_pair::copy_vec(&self.tree.placement)
    }
}

impl Mutation<PEMoveType> for PolishExpression {
    open spec fn ready(&self) -> bool {
        self.ready_spec()
    }

    open spec fn move_fits(&self, m: &PEMoveType) -> bool {
        m.fits(self.solution@)
    }

    open spec fn real_move(&self, m: &PEMoveType) -> bool {
        self.solution@.len() >= 3 ==> real_pe_move(self.solution@, *m)
    }

    open spec fn moves_to(&self, m: &PEMoveType, next: &PolishExpression) -> bool {
        &&& next.solution@ == m.applied(self.solution@)
        &&& next.modules == self.modules
        &&& next.nets == self.nets
        &&& next.tree.module_shape == self.tree.module_shape
    }

    open spec fn same_solution(&self, other: &PolishExpression) -> bool {
        &&& self.solution@ == other.solution@
        &&& self.modules == other.modules
        &&& self.nets == other.nets
        &&& self.tree.module_shape == other.tree.module_shape
    }

    fn get_random_move(&mut self) -> (m: PEMoveType) {
        self.random_move()
    }

    fn apply_move(&mut self, m: &PEMoveType) {
        self.apply_pe_move(m);
    }

    proof fn lemma_same_solution_refl(a: &PolishExpression) {
    }

    proof fn lemma_same_solution_trans(a: &PolishExpression, b: &PolishExpression, c: &PolishExpression) {
    }

    proof fn lemma_move_twice(a: &PolishExpression, b: &PolishExpression, c: &PolishExpression, m: &PEMoveType) {
        lemma_applied_twice(a.solution@, *m);
    }
}

/// Every move undoes itself.
pub proof fn lemma_applied_twice(s: Seq<ModuleNode>, m: PEMoveType)
    requires
        m.fits(s),
    ensures
        m.applied(m.applied(s)) == s,
{
    let t = m.applied(s);
    match m {
        PEMoveType::InvertChain(a) => {
            lemma_chain_end_bound(s, a as int);
            assert forall|j: int| 0 <= j < s.len() implies (#[trigger] s[j] is Module) == (t[j] is Module) by {
                if a <= j < chain_end(s, a as int) {
                    lemma_chain_facts(s, a as int, j);
                }
            }
            lemma_chain_end_same(s, t, a as int);
            assert forall|j: int| 0 <= j < s.len() implies #[trigger] m.applied(t)[j] == s[j] by {
                if a <= j < chain_end(s, a as int) {
                    lemma_chain_facts(s, a as int, j);
                }
            }
            assert(m.applied(t) =~= s);
        },
        PEMoveType::SwapOperands(a, b) => {
            assert(m.applied(t) =~= s);
        },
        PEMoveType::SwapOperandOperator(a, b) => {
            assert(m.applied(t) =~= s);
        },
    }
}

/// A fitting move keeps every module named exactly once.
pub proof fn lemma_move_names(s: Seq<ModuleNode>, m: PEMoveType, n: int)
    requires
        m.fits(s),
        names_each_once(s, n),
    ensures
        names_each_once(m.applied(s), n),
{
    let t = m.applied(s);
    match m {
        PEMoveType::InvertChain(a) => {
            lemma_chain_end_bound(s, a as int);
            let e = chain_end(s, a as int);
            assert forall|k: int| 0 <= k < s.len() && (#[trigger] s[k] is Module) implies t[k] == s[k] by {
                if a <= k < e {
                    lemma_chain_facts(s, a as int, k);
                }
            }
            assert forall|k: int| 0 <= k < s.len() && (#[trigger] t[k] is Module) implies t[k] == s[k] by {
                if a <= k < e {
                    lemma_chain_facts(s, a as int, k);
                }
            }
            assert forall|id: int| 0 <= id < n implies #[trigger] names(t, id) by {
                assert(names(s, id));
                let w = choose|w: int| 0 <= w < s.len() && #[trigger] s[w] == ModuleNode::Module(id as usize);
                assert(t[w] == s[w]);
            }
        },
        PEMoveType::SwapOperands(a, b) => {
            lemma_swap_names(s, a as int, b as int, n);
        },
        PEMoveType::SwapOperandOperator(a, b) => {
            lemma_swap_names(s, a as int, b as int, n);
        },
    }
}

proof fn lemma_swap_names(s: Seq<ModuleNode>, a: int, b: int, n: int)
    requires
        0 <= a < s.len(),
        0 <= b < s.len(),
        names_each_once(s, n),
    ensures
        names_each_once(swap_tokens(s, a, b), n),
{
    let t = swap_tokens(s, a, b);
    let f = |k: int| if k == a { b } else if k == b { a } else { k };
    assert forall|k: int| 0 <= k < s.len() implies #[trigger] t[k] == s[f(k)] by {}
    assert forall|x: int, y: int| 0 <= x < y < t.len() && (#[trigger] t[x] is Module) && (#[trigger] t[y] is Module) implies t[x] != t[y] by {
        let fx = f(x);
        let fy = f(y);
        assert(t[x] == s[fx] && t[y] == s[fy]);
        assert(fx != fy);
        if fx < fy {
            assert(s[fx] != s[fy]);
        } else {
            assert(s[fy] != s[fx]);
        }
    }
    assert forall|id: int| 0 <= id < n implies #[trigger] names(t, id) by {
        assert(names(s, id));
        let w = choose|w: int| 0 <= w < s.len() && #[trigger] s[w] == ModuleNode::Module(id as usize);
        assert(t[f(w)] == s[f(f(w))]);
        assert(f(f(w)) == w);
    }
}

/// A fitting move keeps no two equal cuts next to each other.
#[verifier::spinoff_prover]
pub proof fn lemma_move_normalized(s: Seq<ModuleNode>, m: PEMoveType)
    requires
        m.fits(s),
        normalized(s),
    ensures
        normalized(m.applied(s)),
{
    let t = m.applied(s);
    match m {
        PEMoveType::InvertChain(a) => {
            lemma_chain_end_bound(s, a as int);
            let e = chain_end(s, a as int);
            lemma_chain_end_module(s, a as int);
            assert forall|k: int|
                0 <= k && k + 1 < t.len() && !(#[trigger] t[k] is Module) && !(t[k + 1] is Module) implies t[k] != t[k + 1] by {
                if a <= k < e {
                    lemma_chain_facts(s, a as int, k);
                }
                if a <= k + 1 < e {
                    lemma_chain_facts(s, a as int, k + 1);
                }
                if a <= k && k + 1 < e {
                    assert(s[k] != s[k + 1]);
                } else if k < a && a <= k + 1 && k + 1 < e {
                    assert(k == a - 1);
                    assert(s[k] is Module);
                } else if a <= k && k < e && k + 1 >= e {
                    assert(k + 1 == e);
                    assert(s[e] is Module);
                } else {
                    assert(t[k] == s[k] && t[k + 1] == s[k + 1]);
                }
            }
        },
        PEMoveType::SwapOperands(a, b) => {
            assert forall|k: int|
                0 <= k && k + 1 < t.len() && !(#[trigger] t[k] is Module) && !(t[k + 1] is Module) implies t[k] != t[k + 1] by {
                assert(t[k] == s[k] && t[k + 1] == s[k + 1]);
            }
        },
        PEMoveType::SwapOperandOperator(a, b) => {},
    }
}

proof fn lemma_chain_end_module(s: Seq<ModuleNode>, a: int)
    requires
        0 <= a,
    ensures
        chain_end(s, a) < s.len() ==> s[chain_end(s, a)] is Module,
    decreases s.len() - a,
{
    if a < s.len() && !(s[a] is Module) {
        lemma_chain_end_module(s, a + 1);
    }
}

/// The run of cuts from `a` ends at the same place in expressions whose
/// tokens agree in kind.
proof fn lemma_chain_end_same(s: Seq<ModuleNode>, t: Seq<ModuleNode>, a: int)
    requires
        s.len() == t.len(),
        0 <= a,
        forall|j: int| 0 <= j < s.len() ==> (#[trigger] s[j] is Module) == (t[j] is Module),
    ensures
        chain_end(s, a) == chain_end(t, a),
    decreases s.len() - a,
{
    if a < s.len() && !(s[a] is Module) {
        lemma_chain_end_same(s, t, a + 1);
    }
}

impl Solution<Vec<ModuleNode>> for PolishExpression {
    open spec fn holds_solution(&self) -> bool {
        self.ready_spec()
    }

    open spec fn accepts(&self, s: &Vec<ModuleNode>) -> bool {
        s@.len() == 2 * self.n() - 1 && expression_ok(s@, self.modules@, self.tree.module_shape) && normalized(s@)
            && names_each_once(s@, self.n())
    }

    open spec fn holds(&self, s: &Vec<ModuleNode>) -> bool {
        s@ == self.solution@
    }

    fn copy_solution(&self) -> (s: Vec<ModuleNode>) {
        crate::sequence_pair::copy_vec(&self.solution)
    }

    fn set_solution(&mut self, s: Vec<ModuleNode>) {
        self.install(s);
    }
}


/// Each module id below `n` names exactly one leaf of the expression.
pub open spec fn names_each_once(s: Seq<ModuleNode>, n: int) -> bool {
    &&& forall|a: int, b: int|
        0 <= a < b < s.len() && (#[trigger] s[a] is Module) && (#[trigger] s[b] is Module) ==> s[a] != s[b]
    &&& forall|id: int| 0 <= id < n ==> #[trigger] names(s, id)
}

/// Some leaf of the expression names module `id`.
pub open spec fn names(s: Seq<ModuleNode>, id: int) -> bool {
    exists|a: int| 0 <= a < s.len() && #[trigger] s[a] == ModuleNode::Module(id as usize)
}

/// Every node's placement carries its own token.
proof fn lemma_placement_tokens(pe: &PolishExpression, w: int)
    requires
        pe.wf(),
        pe.costs_current(),
        0 <= w < pe.solution@.len(),
    ensures
        pe.tree.node_placement@[w].3 == pe.solution@[w],
{
    let t = &pe.tree;
    let s = pe.solution@;
    let len = s.len() as int;
    lemma_consistent_placeable(t, s, pe.modules@);
    assert(t.node_ok(s, pe.modules@, w));
    crate::slicing_tree::lemma_node_ok_token(t, s, pe.modules@, w);
    if w < len - 1 {
        assert(crate::slicing_tree::has_parent_from(t.nodes@, w, w + 1));
        let p = choose|p: int|
            w + 1 <= p < t.nodes@.len() && !(#[trigger] t.nodes@[p].module_type is Module) && (t.nodes@[p].left == w
                || t.nodes@[p].right == w);
        assert(cut_placed(t, p));
    }
}

/// The placed modules are pairwise apart and lie within the root's
/// rectangle at the origin (the expression names every module once).
pub proof fn lemma_modules_apart(pe: &PolishExpression, i: int, j: int)
    requires
        pe.wf(),
        pe.costs_current(),
        0 <= i < pe.n(),
        0 <= j < pe.n(),
        i != j,
    ensures
        crate::sequence_pair::disjoint(pe.tree.placement@[i], pe.tree.placement@[j]),
        pe.tree.placement@[i].0 + pe.tree.placement@[i].2.width <= pe.tree.node_placement@[pe.solution@.len() - 1].2.width,
        pe.tree.placement@[i].1 + pe.tree.placement@[i].2.height <= pe.tree.node_placement@[pe.solution@.len() - 1].2.height,
{
    let s = pe.solution@;
    let len = s.len() as int;
    let np = pe.tree.node_placement@;
    let pl = pe.tree.placement@;
    assert(names(s, i));
    assert(names(s, j));
    let a = choose|a: int| 0 <= a < s.len() && #[trigger] s[a] == ModuleNode::Module(i as usize);
    let b = choose|b: int| 0 <= b < s.len() && #[trigger] s[b] == ModuleNode::Module(j as usize);
    lemma_placement_tokens(pe, a);
    lemma_placement_tokens(pe, b);
    assert(module_placed(np, pl, i, len));
    assert(module_placed(np, pl, j, len));
    let wa = choose|w: int| 0 <= w < len && #[trigger] np[w].3 == ModuleNode::Module(i as usize) && pl[i] == (np[w].0, np[w].1, np[w].2);
    let wb = choose|w: int| 0 <= w < len && #[trigger] np[w].3 == ModuleNode::Module(j as usize) && pl[j] == (np[w].0, np[w].1, np[w].2);
    lemma_placement_tokens(pe, wa);
    lemma_placement_tokens(pe, wb);
    if wa != a {
        if wa < a {
            assert(s[wa] != s[a]);
        } else {
            assert(s[a] != s[wa]);
        }
    }
    if wb != b {
        if wb < b {
            assert(s[wb] != s[b]);
        } else {
            assert(s[b] != s[wb]);
        }
    }
    crate::slicing_tree::lemma_leaves_apart(&pe.tree, s, pe.modules@, a, b);
    assert(root_placed(&pe.tree));
}


/// Two representations that hold the same expression over the same modules
/// agree, however their trees were brought up to date (incrementally after
/// moves, or from scratch): every node holds the same shapes, and the areas
/// are equal.
pub proof fn lemma_same_expression_same_area(first: &PolishExpression, second: &PolishExpression)
    requires
        first.wf(),
        first.costs_current(),
        second.wf(),
        second.costs_current(),
        first.solution@ == second.solution@,
        first.modules@ == second.modules@,
        first.tree.module_shape == second.tree.module_shape,
    ensures
        forall|k: int|
            0 <= k < first.solution@.len() ==> #[trigger] crate::slicing_tree::same_shapes(
                first.tree.nodes@[k].shape.points@,
                second.tree.nodes@[k].shape.points@,
            ),
        first.current_area == second.current_area,
{
    let s = first.solution@;
    let ms = first.modules@;
    let len = s.len() as int;
    assert forall|k: int| 0 <= k < len implies #[trigger] crate::slicing_tree::same_shapes(
        first.tree.nodes@[k].shape.points@,
        second.tree.nodes@[k].shape.points@,
    ) by {
        crate::slicing_tree::lemma_consistent_unique(&first.tree, &second.tree, s, ms, k);
    }
    crate::slicing_tree::lemma_consistent_unique(&first.tree, &second.tree, s, ms, len - 1);
    let r1 = first.tree.node_placement@[len - 1].2;
    let r2 = second.tree.node_placement@[len - 1].2;
    let pts1 = first.tree.nodes@[len - 1].shape.points@;
    let pts2 = second.tree.nodes@[len - 1].shape.points@;
    assert(root_placed(&first.tree));
    assert(root_placed(&second.tree));
    assert(pts2.contains(r1));
    assert(pts1.contains(r2));
    let i1 = choose|i: int| 0 <= i < pts2.len() && pts2[i] == r1;
    let i2 = choose|i: int| 0 <= i < pts1.len() && pts1[i] == r2;
    assert(area_of(pts2[i1]) >= area_of(r2));
    assert(area_of(pts1[i2]) >= area_of(r1));
}


impl crate::search::FloorMeasure for PolishExpression {
    open spec fn area_spec(&self) -> int {
        self.current_area as int
    }

    open spec fn wire_spec(&self) -> int {
        self.current_wire as int
    }

    fn floor_area(&self) -> u64 {
        self.current_area
    }

    fn floor_wire(&self) -> u128 {
        self.current_wire
    }
}


/// Two representations that hold the same expression over the same
/// modules and nets agree on the placement and the
/// wirelength too, however their trees were brought up to date: an
/// incremental recomputation after moves places the modules exactly as a
/// fresh evaluation does.
#[verifier::spinoff_prover]
pub proof fn lemma_same_expression_same_floorplan(first: &PolishExpression, second: &PolishExpression)
    requires
        first.wf(),
        first.costs_current(),
        second.wf(),
        second.costs_current(),
        first.solution@ == second.solution@,
        first.modules@ == second.modules@,
        first.nets@ == second.nets@,
        first.tree.module_shape == second.tree.module_shape,
    ensures
        first.tree.placement@ == second.tree.placement@,
        first.current_wire == second.current_wire,
        first.current_area == second.current_area,
{
    let s = first.solution@;
    let ms = first.modules@;
    let len = s.len() as int;
    let n = first.n();
    lemma_same_expression_same_area(first, second);
    let np1 = first.tree.node_placement@;
    let np2 = second.tree.node_placement@;
    let pl1 = first.tree.placement@;
    let pl2 = second.tree.placement@;
    assert forall|id: int| 0 <= id < n implies #[trigger] pl1[id] == pl2[id] by {
        assert(names(s, id));
        let a = choose|a: int| 0 <= a < s.len() && #[trigger] s[a] == ModuleNode::Module(id as usize);
        lemma_placement_tokens(first, a);
        lemma_placement_tokens(second, a);
        assert(module_placed(np1, pl1, id, len));
        assert(module_placed(np2, pl2, id, len));
        let w1 = choose|w: int| 0 <= w < len && #[trigger] np1[w].3 == ModuleNode::Module(id as usize) && pl1[id] == (np1[w].0, np1[w].1, np1[w].2);
        let w2 = choose|w: int| 0 <= w < len && #[trigger] np2[w].3 == ModuleNode::Module(id as usize) && pl2[id] == (np2[w].0, np2[w].1, np2[w].2);
        lemma_placement_tokens(first, w1);
        lemma_placement_tokens(second, w2);
        if w1 != a {
            if w1 < a {
                assert(s[w1] != s[a]);
            } else {
                assert(s[a] != s[w1]);
            }
        }
        if w2 != a {
            if w2 < a {
                assert(s[w2] != s[a]);
            } else {
                assert(s[a] != s[w2]);
            }
        }
        crate::slicing_tree::lemma_same_node_placement(&first.tree, &second.tree, s, ms, a);
    }
    assert(pl1 =~= pl2);
}


/// The module placed by leaf `a` takes that leaf's placement.
proof fn lemma_leaf_module_placement(pe: &PolishExpression, a: int)
    requires
        pe.wf(),
        pe.costs_current(),
        0 <= a < pe.solution@.len(),
        pe.solution@[a] is Module,
    ensures
        0 <= module_id(pe.solution@[a]) < pe.n(),
        pe.tree.placement@[module_id(pe.solution@[a])] == (
            pe.tree.node_placement@[a].0,
            pe.tree.node_placement@[a].1,
            pe.tree.node_placement@[a].2,
        ),
{
    let s = pe.solution@;
    let len = s.len() as int;
    let np = pe.tree.node_placement@;
    let pl = pe.tree.placement@;
    let id = module_id(s[a]);
    assert(s[a] == ModuleNode::Module(id as usize));
    lemma_placement_tokens(pe, a);
    assert(module_placed(np, pl, id, len));
    let w = choose|w: int| 0 <= w < len && #[trigger] np[w].3 == ModuleNode::Module(id as usize) && pl[id] == (np[w].0, np[w].1, np[w].2);
    lemma_placement_tokens(pe, w);
    if w != a {
        if w < a {
            assert(s[w] != s[a]);
        } else {
            assert(s[a] != s[w]);
        }
    }
}

/// The bounding box of the placed modules is the root's rectangle: every
/// module lies within it, some module reaches its right edge and some its
/// top edge.
pub proof fn lemma_bounding_box_tight(pe: &PolishExpression)
    requires
        pe.wf(),
        pe.costs_current(),
    ensures
        exists|i: int|
            0 <= i < pe.n() && #[trigger] pe.tree.placement@[i].0 + pe.tree.placement@[i].2.width
                == pe.tree.node_placement@[pe.solution@.len() - 1].2.width,
        exists|j: int|
            0 <= j < pe.n() && #[trigger] pe.tree.placement@[j].1 + pe.tree.placement@[j].2.height
                == pe.tree.node_placement@[pe.solution@.len() - 1].2.height,
{
    let s = pe.solution@;
    let len = s.len() as int;
    let np = pe.tree.node_placement@;
    crate::slicing_tree::lemma_subtree_tight(&pe.tree, s, pe.modules@, len - 1);
    assert(root_placed(&pe.tree));
    let a = choose|a: int|
        #[trigger] crate::slicing_tree::in_span(s, len - 1, a) && s[a] is Module && np[a].0 + np[a].2.width == np[len - 1].0
            + np[len - 1].2.width;
    let b = choose|b: int|
        #[trigger] crate::slicing_tree::in_span(s, len - 1, b) && s[b] is Module && np[b].1 + np[b].2.height == np[len - 1].1
            + np[len - 1].2.height;
    assert(crate::postfix::prefix_ok(s, len));
    crate::postfix::lemma_span(s, len - 1);
    lemma_leaf_module_placement(pe, a);
    lemma_leaf_module_placement(pe, b);
    let ia = module_id(s[a]);
    let ib = module_id(s[b]);
    assert(pe.tree.placement@[ia].0 + pe.tree.placement@[ia].2.width == np[len - 1].2.width);
    assert(pe.tree.placement@[ib].1 + pe.tree.placement@[ib].2.height == np[len - 1].2.height);
}


/// The total area of the first `m` modules.
pub open spec fn modules_area(ms: Seq<Rectangle>, m: int) -> int
    decreases m,
{
    if m <= 0 {
        0
    } else {
        modules_area(ms, m - 1) + ms[m - 1].width * ms[m - 1].height
    }
}

/// Module `id` is named among the first `hi` tokens.
pub open spec fn named_before(s: Seq<ModuleNode>, hi: int, id: int) -> bool {
    exists|a: int| 0 <= a < hi && #[trigger] s[a] == ModuleNode::Module(id as usize)
}

/// The total area of the modules below `m` that are named among the first
/// `hi` tokens.
pub open spec fn named_area(s: Seq<ModuleNode>, ms: Seq<Rectangle>, hi: int, m: int) -> int
    decreases m,
{
    if m <= 0 {
        0
    } else {
        named_area(s, ms, hi, m - 1) + if named_before(s, hi, m - 1) {
            ms[m - 1].width * ms[m - 1].height
        } else {
            0
        }
    }
}

proof fn lemma_named_area_step(s: Seq<ModuleNode>, ms: Seq<Rectangle>, hi: int, m: int, n: int)
    requires
        0 <= hi < s.len(),
        0 <= m <= n <= usize::MAX,
        names_each_once(s, n),
        forall|k: int| 0 <= k < s.len() && (#[trigger] s[k] is Module) ==> module_id(s[k]) < n,
    ensures
        named_area(s, ms, hi + 1, m) == named_area(s, ms, hi, m) + if s[hi] is Module && module_id(s[hi]) < m {
            crate::slicing_tree::module_area_at(s, ms, hi)
        } else {
            0
        },
    decreases m,
{
    if m > 0 {
        lemma_named_area_step(s, ms, hi, m - 1, n);
        let id = m - 1;
        if s[hi] is Module {
            if module_id(s[hi]) == id {
                assert(s[hi] == ModuleNode::Module(id as usize));
            } else {
                assert(s[hi] != ModuleNode::Module(id as usize));
            }
        }
        if s[hi] == ModuleNode::Module(id as usize) {
            assert(named_before(s, hi + 1, id));
            if named_before(s, hi, id) {
                let a = choose|a: int| 0 <= a < hi && #[trigger] s[a] == ModuleNode::Module(id as usize);
                assert(s[a] is Module && s[hi] is Module);
            }
        } else {
            if named_before(s, hi + 1, id) {
                let a = choose|a: int| 0 <= a < hi + 1 && #[trigger] s[a] == ModuleNode::Module(id as usize);
                assert(a != hi);
                assert(named_before(s, hi, id));
            }
            if named_before(s, hi, id) {
                let a = choose|a: int| 0 <= a < hi && #[trigger] s[a] == ModuleNode::Module(id as usize);
                assert(named_before(s, hi + 1, id));
            }
        }
    }
}

proof fn lemma_named_area_positions(s: Seq<ModuleNode>, ms: Seq<Rectangle>, hi: int, n: int)
    requires
        0 <= hi <= s.len(),
        0 <= n <= usize::MAX,
        names_each_once(s, n),
        forall|k: int| 0 <= k < s.len() && (#[trigger] s[k] is Module) ==> module_id(s[k]) < n,
    ensures
        named_area(s, ms, hi, n) == crate::slicing_tree::leaf_area_sum(s, ms, 0, hi),
    decreases hi,
{
    if hi > 0 {
        lemma_named_area_positions(s, ms, hi - 1, n);
        lemma_named_area_step(s, ms, hi - 1, n, n);
    } else {
        lemma_named_area_none(s, ms, n);
    }
}

proof fn lemma_named_area_none(s: Seq<ModuleNode>, ms: Seq<Rectangle>, m: int)
    ensures
        named_area(s, ms, 0, m) == 0,
    decreases m,
{
    if m > 0 {
        lemma_named_area_none(s, ms, m - 1);
    }
}

proof fn lemma_named_area_all(s: Seq<ModuleNode>, ms: Seq<Rectangle>, m: int, n: int)
    requires
        0 <= m <= n,
        names_each_once(s, n),
    ensures
        named_area(s, ms, s.len() as int, m) == modules_area(ms, m),
    decreases m,
{
    if m > 0 {
        lemma_named_area_all(s, ms, m - 1, n);
        assert(names(s, m - 1));
    }
}

/// The least area is at least the total area of the modules.
pub proof fn lemma_area_at_least_modules(pe: &PolishExpression)
    requires
        pe.wf(),
        pe.costs_current(),
    ensures
        pe.current_area >= modules_area(pe.modules@, pe.n()),
{
    let s = pe.solution@;
    let ms = pe.modules@;
    let len = s.len() as int;
    let n = pe.n();
    let t = &pe.tree;
    assert(root_placed(t));
    crate::slicing_tree::lemma_subtree_area(t, s, ms, len - 1);
    assert(crate::postfix::prefix_ok(s, len));
    crate::postfix::lemma_stack_shape(s, len);
    assert(crate::postfix::stack_after(s, len)[0] == len - 1);
    lemma_named_area_positions(s, ms, len, n);
    lemma_named_area_all(s, ms, n, n);
}

} // verus!
