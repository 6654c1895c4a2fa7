//! The hypergraph of a net list and a greedy linear order of its nodes.

use vstd::prelude::*;
use crate::geometry::Net;
use crate::sequence_pair::copy_vec;

verus! {

/// For each node, the nets that leave it: every net that contains the node,
/// with that occurrence of the node taken out.
#[derive(Debug)]
pub struct Hypergraph {
    pub out_nets: Vec<Vec<Net>>,
    pub num_nodes: usize,
    pub num_nets: usize,
}

/// The largest pin of the first `m` nets.
pub open spec fn max_pin(nets: Seq<Net>, m: int) -> int
    decreases m,
{
    if m <= 0 {
        0
    } else {
        let a = max_pin(nets, m - 1);
        let b = seq_max(nets[m - 1].pins@, nets[m - 1].pins@.len() as int);
        if a >= b { a } else { b }
    }
}

/// The largest of the first `k` entries, or zero.
pub open spec fn seq_max(s: Seq<usize>, k: int) -> int
    decreases k,
{
    if k <= 0 {
        0
    } else {
        let a = seq_max(s, k - 1);
        if a >= s[k - 1] { a } else { s[k - 1] as int }
    }
}

/// The out-nets of `v` that the first `k` pins of a net give.
pub open spec fn occurrences(net: Net, v: int, k: int) -> Seq<(Seq<usize>, usize)>
    decreases k,
{
    if k <= 0 {
        Seq::empty()
    } else {
        let rest = occurrences(net, v, k - 1);
        if net.pins@[k - 1] == v {
            rest.push((net.pins@.remove(k - 1), net.id))
        } else {
            rest
        }
    }
}

/// The out-nets of `v` that the first `m` nets give.
pub open spec fn expected_out(nets: Seq<Net>, v: int, m: int) -> Seq<(Seq<usize>, usize)>
    decreases m,
{
    if m <= 0 {
        Seq::empty()
    } else {
        expected_out(nets, v, m - 1) + occurrences(nets[m - 1], v, nets[m - 1].pins@.len() as int)
    }
}

/// The pins and id of each net.
pub open spec fn nets_view(nets: Seq<Net>) -> Seq<(Seq<usize>, usize)> {
    nets.map_values(|n: Net| (n.pins@, n.id))
}

proof fn lemma_seq_max_bound(s: Seq<usize>, k: int)
    requires
        0 <= k <= s.len(),
    ensures
        forall|i: int| 0 <= i < k ==> s[i] <= seq_max(s, k),
        seq_max(s, k) <= usize::MAX,
        k > 0 ==> exists|i: int| 0 <= i < k && s[i] == seq_max(s, k),
    decreases k,
{
    if k > 0 {
        lemma_seq_max_bound(s, k - 1);
    }
}

proof fn lemma_max_pin_bound(nets: Seq<Net>, m: int)
    requires
        0 <= m <= nets.len(),
    ensures
        forall|j: int, i: int| 0 <= j < m && 0 <= i < nets[j].pins@.len() ==> nets[j].pins@[i] <= max_pin(nets, m),
        0 <= max_pin(nets, m) <= usize::MAX,
    decreases m,
{
    if m > 0 {
        lemma_max_pin_bound(nets, m - 1);
        lemma_seq_max_bound(nets[m - 1].pins@, nets[m - 1].pins@.len() as int);
    }
}

impl Hypergraph {
    /// The hypergraph of `net_list`: its nodes are `0..=` the largest pin.
    pub fn from(net_list: Vec<Net>) -> (r: Hypergraph)
        requires
            net_list@.len() >= 1,
            max_pin(net_list@, net_list@.len() as int) < usize::MAX,
        ensures
            r.num_nodes == max_pin(net_list@, net_list@.len() as int) + 1,
            r.num_nets == net_list@.len(),
            r.out_nets@.len() == r.num_nodes,
            forall|v: int|
                0 <= v < r.num_nodes ==> nets_view(#[trigger] r.out_nets@[v]@) == expected_out(
                    net_list@,
                    v,
                    net_list@.len() as int,
                ),
    {
        let ghost nl = net_list@;
        let mut top: usize = 0;
        let mut m: usize = 0;
        while m < net_list.len()
            invariant
                m <= nl.len(),
                nl == net_list@,
                top == max_pin(nl, m as int),
            decreases nl.len() - m,
        {
            let pins = &net_list[m].pins;
            let mut best: usize = 0;
            let mut i: usize = 0;
            while i < pins.len()
                invariant
                    i <= pins@.len(),
                    best == seq_max(pins@, i as int),
                decreases pins@.len() - i,
            {
                if pins[i] > best {
                    best = pins[i];
                }
                i += 1;
            }
            if best > top {
                top = best;
            }
            m += 1;
        }
        let num_nodes = top + 1;
        let mut out_nets: Vec<Vec<Net>> = Vec::new();
        let mut v: usize = 0;
        while v < num_nodes
            invariant
                v <= num_nodes,
                nl == net_list@,
                out_nets@.len() == v,
                forall|w: int| 0 <= w < v ==> nets_view(#[trigger] out_nets@[w]@) == expected_out(nl, w, nl.len() as int),
            decreases num_nodes - v,
        {
            let mut row: Vec<Net> = Vec::new();
            let mut m: usize = 0;
            while m < net_list.len()
                invariant
                    m <= nl.len(),
                    nl == net_list@,
                    nets_view(row@) == expected_out(nl, v as int, m as int),
                decreases nl.len() - m,
            {
                let net = &net_list[m];
                let mut i: usize = 0;
                let ghost base = row@;
                while i < net.pins.len()
                    invariant
                        i <= net.pins@.len(),
                        nets_view(row@) == nets_view(base) + occurrences(*net, v as int, i as int),
                    decreases net.pins@.len() - i,
                {
                    if net.pins[i] == v {
                        let mut e = copy_vec(&net.pins);
                        e.remove(i);
                        let ghost before = row@;
                        row.push(Net { pins: e, id: net.id });
                        assert(nets_view(row@) =~= nets_view(before).push((net.pins@.remove(i as int), net.id)));
                    }
                    i += 1;
                }
                assert(nl[m as int] == *net);
                m += 1;
            }
            out_nets.push(row);
            v += 1;
        }
        Hypergraph { out_nets, num_nodes, num_nets: net_list.len() }
    }
}


/// Every pin is placed (`want`) or every pin is unplaced (`!want`).
pub open spec fn every_pin(pins: Seq<usize>, placed: Seq<bool>, want: bool) -> bool {
    forall|i: int| 0 <= i < pins.len() ==> placed[#[trigger] pins[i] as int] == want
}

/// How many of the first `k` nets have every pin placed (`want`) or every
/// pin unplaced (`!want`).
pub open spec fn count_nets(nets: Seq<Net>, placed: Seq<bool>, k: int, want: bool) -> int
    decreases k,
{
    if k <= 0 {
        0
    } else {
        count_nets(nets, placed, k - 1, want) + if every_pin(nets[k - 1].pins@, placed, want) { 1int } else { 0int }
    }
}

/// Nets that placing a node would close minus nets that it would open.
pub open spec fn gain(nets: Seq<Net>, placed: Seq<bool>) -> int {
    count_nets(nets, placed, nets.len() as int, true) - count_nets(nets, placed, nets.len() as int, false)
}

/// Which nodes the first `k` entries of `order` hold.
pub open spec fn placed_by(order: Seq<usize>, k: int, n: int) -> Seq<bool> {
    Seq::new(n as nat, |v: int| order.subrange(0, k).contains(v as usize))
}

impl Hypergraph {
    /// Every out-net names nodes of the graph.
    pub open spec fn wf(&self) -> bool {
        &&& self.out_nets@.len() == self.num_nodes
        &&& forall|v: int, j: int, i: int|
            0 <= v < self.num_nodes && 0 <= j < self.out_nets@[v]@.len() && 0 <= i < self.out_nets@[v]@[j].pins@.len()
                ==> #[trigger] self.out_nets@[v]@[j].pins@[i] < self.num_nodes
    }
}

/// Whether every pin of `pins` is placed (`want`) or unplaced (`!want`).
fn pins_all(pins: &Vec<usize>, placed: &Vec<bool>, want: bool) -> (r: bool)
    requires
        forall|i: int| 0 <= i < pins@.len() ==> #[trigger] pins@[i] < placed@.len(),
    ensures
        r == every_pin(pins@, placed@, want),
{
    let mut i: usize = 0;
    while i < pins.len()
        invariant
            i <= pins@.len(),
            forall|j: int| 0 <= j < pins@.len() ==> #[trigger] pins@[j] < placed@.len(),
            forall|j: int| 0 <= j < i ==> placed@[#[trigger] pins@[j] as int] == want,
        decreases pins@.len() - i,
    {
        if placed[pins[i]] != want {
            return false;
        }
        i += 1;
    }
    true
}

/// The gain of a node with out-nets `nets`.
fn node_gain(nets: &Vec<Net>, placed: &Vec<bool>) -> (r: i128)
    requires
        forall|j: int, i: int|
            0 <= j < nets@.len() && 0 <= i < nets@[j].pins@.len() ==> #[trigger] nets@[j].pins@[i] < placed@.len(),
    ensures
        r == gain(nets@, placed@),
{
    let mut term: usize = 0;
    let mut fresh: usize = 0;
    let mut j: usize = 0;
    while j < nets.len()
        invariant
            j <= nets@.len(),
            forall|j2: int, i: int|
                0 <= j2 < nets@.len() && 0 <= i < nets@[j2].pins@.len() ==> #[trigger] nets@[j2].pins@[i] < placed@.len(),
            term == count_nets(nets@, placed@, j as int, true),
            fresh == count_nets(nets@, placed@, j as int, false),
            term <= j,
            fresh <= j,
        decreases nets@.len() - j,
    {
        let pins = &nets[j].pins;
        assert forall|i: int| 0 <= i < pins@.len() implies #[trigger] pins@[i] < placed@.len() by {
            assert(nets@[j as int].pins@[i] < placed@.len());
        }
        if pins_all(pins, placed, true) {
            term += 1;
        }
        if pins_all(pins, placed, false) {
            fresh += 1;
        }
        j += 1;
    }
    term as i128 - fresh as i128
}

/// A linear order of the nodes that starts at `start_node` and then, one
/// node at a time, takes the unplaced node of greatest gain (nets closed
/// minus nets opened), the first such one.
pub fn cluster_growing_order(graph: &Hypergraph, start_node: usize) -> (order: Vec<usize>)
    requires
        graph.wf(),
        start_node < graph.num_nodes,
    ensures
        order@.len() == graph.num_nodes,
        order@[0] == start_node,
        forall|k: int| 0 <= k < order@.len() ==> #[trigger] order@[k] < graph.num_nodes,
        forall|a: int, b: int| 0 <= a < b < order@.len() ==> order@[a] != order@[b],
        forall|k: int, v: int|
            1 <= k < order@.len() && 0 <= v < graph.num_nodes && !placed_by(order@, k, graph.num_nodes as int)[v]
                ==> #[trigger] gain(graph.out_nets@[v]@, placed_by(order@, k, graph.num_nodes as int)) <= gain(
                graph.out_nets@[order@[k] as int]@,
                placed_by(order@, k, graph.num_nodes as int),
            ) && (v < order@[k] ==> gain(graph.out_nets@[v]@, placed_by(order@, k, graph.num_nodes as int)) < gain(
                graph.out_nets@[order@[k] as int]@,
                placed_by(order@, k, graph.num_nodes as int),
            )),
        forall|k: int| 1 <= k < order@.len() ==> !placed_by(order@, k, graph.num_nodes as int)[#[trigger] order@[k] as int],
{
    let n = graph.num_nodes;
    let mut order: Vec<usize> = Vec::new();
    order.push(start_node);
    let mut placed: Vec<bool> = Vec::new();
    let mut i: usize = 0;
    while i < n
        invariant
            i <= n,
            placed@.len() == i,
            order@ == seq![start_node],
            forall|v: int| 0 <= v < i ==> placed@[v] == (v == start_node),
        decreases n - i,
    {
        placed.push(i == start_node);
        i += 1;
    }
    assert(placed@ =~= placed_by(order@, 1, n as int)) by {
        assert forall|v: int| 0 <= v < n implies placed@[v] == order@.subrange(0, 1).contains(v as usize) by {
            assert(order@.subrange(0, 1)[0] == start_node);
            if order@.subrange(0, 1).contains(v as usize) {
                let j = choose|j: int| 0 <= j < 1 && order@.subrange(0, 1)[j] == v as usize;
            }
        }
    }
    let mut step: usize = 1;
    while step < n
        invariant
            graph.wf(),
            n == graph.num_nodes,
            1 <= step <= n,
            order@.len() == step,
            order@[0] == start_node,
            placed@ == placed_by(order@, step as int, n as int),
            forall|k: int| 0 <= k < order@.len() ==> #[trigger] order@[k] < n,
            forall|a: int, b: int| 0 <= a < b < order@.len() ==> order@[a] != order@[b],
            forall|k: int, v: int|
                1 <= k < order@.len() && 0 <= v < n && !placed_by(order@, k, n as int)[v]
                    ==> #[trigger] gain(graph.out_nets@[v]@, placed_by(order@, k, n as int)) <= gain(
                    graph.out_nets@[order@[k] as int]@,
                    placed_by(order@, k, n as int),
                ) && (v < order@[k] ==> gain(graph.out_nets@[v]@, placed_by(order@, k, n as int)) < gain(
                    graph.out_nets@[order@[k] as int]@,
                    placed_by(order@, k, n as int),
                )),
            forall|k: int| 1 <= k < order@.len() ==> !placed_by(order@, k, n as int)[#[trigger] order@[k] as int],
        decreases n - step,
    {
        let ghost pl = placed@;
        let mut best_gain: i128 = 0;
        let mut best_node: usize = n;
        let mut v: usize = 0;
        while v < n
            invariant
                graph.wf(),
                n == graph.num_nodes,
                placed@ == pl,
                pl.len() == n,
                v <= n,
                best_node == n || (best_node < v && !pl[best_node as int] && best_gain == gain(graph.out_nets@[best_node as int]@, pl)),
                best_node == n ==> forall|w: int| 0 <= w < v ==> pl[w],
                best_node < n ==> forall|w: int| 0 <= w < v && !pl[w] ==> gain(graph.out_nets@[w]@, pl) <= best_gain,
                best_node < n ==> forall|w: int| 0 <= w < best_node && !pl[w] ==> gain(graph.out_nets@[w]@, pl) < best_gain,
            decreases n - v,
        {
            if !placed[v] {
                let row = &graph.out_nets[v];
                assert forall|j: int, i: int|
                    0 <= j < row@.len() && 0 <= i < row@[j].pins@.len() implies #[trigger] row@[j].pins@[i] < placed@.len() by {
                    assert(graph.out_nets@[v as int]@[j].pins@[i] < n);
                }
                let g = node_gain(row, &placed);
                if best_node == n || g > best_gain {
                    best_gain = g;
                    best_node = v;
                }
            }
            v += 1;
        }
        assert(best_node < n) by {
            if best_node == n {
                assert(forall|w: int| 0 <= w < n ==> pl[w]);
                let ghost seen = order@.subrange(0, step as int);
                assert forall|w: usize| w < n implies #[trigger] seen.contains(w) by {
                    assert(pl[w as int]);
                }
                lemma_pigeonhole(seen, n as int);
            }
        }
        let ghost old_order = order@;
        placed.set(best_node, true);
        order.push(best_node);
        proof {
            assert(old_order.subrange(0, step as int) =~= old_order);
            assert forall|k: int| 0 <= k < step implies placed_by(order@, k, n as int) == placed_by(old_order, k, n as int) by {
                assert(order@.subrange(0, k) =~= old_order.subrange(0, k));
            }
            assert(placed_by(order@, step as int, n as int) == pl) by {
                assert(order@.subrange(0, step as int) =~= old_order.subrange(0, step as int));
            }
            assert(placed@ =~= placed_by(order@, step as int + 1, n as int)) by {
                assert forall|w: int| 0 <= w < n implies placed@[w] == order@.subrange(0, step as int + 1).contains(w as usize) by {
                    let sub = order@.subrange(0, step as int + 1);
                    assert(sub =~= old_order.push(best_node));
                    if w == best_node {
                        assert(sub[step as int] == best_node);
                    } else {
                        if sub.contains(w as usize) {
                            let j = choose|j: int| 0 <= j < sub.len() && sub[j] == w as usize;
                            assert(old_order.subrange(0, step as int)[j] == w as usize);
                        }
                        if pl[w] {
                            let j = choose|j: int| 0 <= j < step && old_order.subrange(0, step as int)[j] == w as usize;
                            assert(sub[j] == w as usize);
                        }
                    }
                }
            }
            assert forall|a: int, b: int| 0 <= a < b < order@.len() implies order@[a] != order@[b] by {
                if b == step {
                    if order@[a] == best_node {
                        assert(old_order.subrange(0, step as int)[a] == best_node);
                    }
                }
            }
        }
        step += 1;
    }
    order
}

/// Covering `0..n` takes at least `n` entries.
proof fn lemma_pigeonhole(seen: Seq<usize>, n: int)
    requires
        0 <= n,
        n <= usize::MAX + 1,
        forall|w: usize| w < n ==> #[trigger] seen.contains(w),
    ensures
        seen.len() >= n,
{
    let s = vstd::set_lib::set_int_range(0, n);
    let f = |x: usize| x as int;
    let t = seen.to_set().map(f);
    vstd::seq_lib::seq_to_set_is_finite(seen);
    vstd::set_lib::lemma_map_size_bound(seen.to_set(), t, f);
    assert(s.subset_of(t)) by {
        assert forall|w: int| s.contains(w) implies t.contains(w) by {
            assert(seen.contains(w as usize));
            assert(seen.to_set().contains(w as usize));
            assert(f(w as usize) == w);
        }
    }
    vstd::set_lib::lemma_int_range(0, n);
    seen.lemma_cardinality_of_set();
    vstd::set_lib::lemma_len_subset(s, t);
}

/// The entries of `vec` in the order that `permutation` gives.
pub fn reorder_vec<T: Copy>(permutation: &Vec<usize>, vec: &Vec<T>) -> (r: Vec<T>)
    requires
        forall|k: int| 0 <= k < permutation@.len() ==> #[trigger] permutation@[k] < vec@.len(),
    ensures
        r@.len() == permutation@.len(),
        forall|k: int| 0 <= k < r@.len() ==> #[trigger] r@[k] == vec@[permutation@[k] as int],
{
    let mut r: Vec<T> = Vec::new();
    let mut k: usize = 0;
    while k < permutation.len()
        invariant
            k <= permutation@.len(),
            forall|j: int| 0 <= j < permutation@.len() ==> #[trigger] permutation@[j] < vec@.len(),
            r@.len() == k,
            forall|j: int| 0 <= j < k ==> #[trigger] r@[j] == vec@[permutation@[j] as int],
        decreases permutation@.len() - k,
    {
        r.push(vec[permutation[k]]);
        k += 1;
    }
    r
}

} // verus!
