//! The capabilities that a search driver needs from a floorplan
//! representation.

use vstd::prelude::*;

verus! {

/// Proposing and applying local moves. A move applied twice in a row leaves
/// the solution as it was, so a rejected move is undone by applying it again.
pub trait Mutation<Move> {
    /// The representation is consistent.
    spec fn ready(&self) -> bool;

    /// `m` can be applied to the current solution.
    spec fn move_fits(&self, m: &Move) -> bool;

    /// `m` changes the current solution (when any move can).
    spec fn real_move(&self, m: &Move) -> bool;

    /// `next` holds the solution that applying `m` to this one gives.
    spec fn moves_to(&self, m: &Move, next: &Self) -> bool;

    /// Both hold the same solution.
    spec fn same_solution(&self, other: &Self) -> bool;

    fn get_random_move(&mut self) -> (m: Move)
        requires
            old(self).ready(),
        ensures
            final(self).ready(),
            final(self).move_fits(&m),
            final(self).real_move(&m),
            old(self).same_solution(final(self)),
    ;

    fn apply_move(&mut self, m: &Move)
        requires
            old(self).ready(),
            old(self).move_fits(m),
        ensures
            final(self).ready(),
            final(self).move_fits(m),
            old(self).moves_to(m, final(self)),
    ;

    /// Every representation holds its own solution.
    proof fn lemma_same_solution_refl(a: &Self)
        ensures
            a.same_solution(a),
    ;

    /// Holding the same solution is transitive.
    proof fn lemma_same_solution_trans(a: &Self, b: &Self, c: &Self)
        requires
            a.same_solution(b),
            b.same_solution(c),
        ensures
            a.same_solution(c),
    ;

    /// Applying a move twice restores the solution.
    proof fn lemma_move_twice(a: &Self, b: &Self, c: &Self, m: &Move)
        requires
            a.ready(),
            a.move_fits(m),
            a.moves_to(m, b),
            b.moves_to(m, c),
        ensures
            a.same_solution(c),
    ;
}

/// Taking a snapshot of the solution and installing one.
pub trait Solution<T> {
    /// The representation is consistent.
    spec fn holds_solution(&self) -> bool;

    /// `s` can be installed.
    spec fn accepts(&self, s: &T) -> bool;

    /// `s` is the solution held.
    spec fn holds(&self, s: &T) -> bool;

    fn copy_solution(&self) -> (s: T)
        requires
            self.holds_solution(),
        ensures
            self.accepts(&s),
            self.holds(&s),
    ;

    fn set_solution(&mut self, s: T)
        requires
            old(self).holds_solution(),
            old(self).accepts(&s),
        ensures
            final(self).holds_solution(),
            final(self).holds(&s),
    ;
}

/// The area of the bounding box and the doubled wirelength of the current
/// placement.
pub trait FloorMeasure {
    /// The area of the bounding box.
    spec fn area_spec(&self) -> int;

    /// Twice the half-perimeter wirelength.
    spec fn wire_spec(&self) -> int;

    fn floor_area(&self) -> (r: u64)
        ensures
            r == self.area_spec(),
    ;

    fn floor_wire(&self) -> (r: u128)
        ensures
            r == self.wire_spec(),
    ;
}

/// `a + b`, or the largest value when that does not fit.
pub fn add_saturating(a: u128, b: u128) -> (r: u128)
    ensures
        r == if a + b <= u128::MAX { a + b } else { u128::MAX as int },
{
    if a > u128::MAX - b {
        u128::MAX
    } else {
        a + b
    }
}

/// The sum of the areas of the first `k` states.
pub open spec fn area_total<T: FloorMeasure>(states: Seq<T>, k: int) -> int
    decreases k,
{
    if k <= 0 {
        0
    } else {
        area_total(states, k - 1) + states[k - 1].area_spec()
    }
}

/// The sum of the doubled wirelengths of the first `k` states.
pub open spec fn wire_total<T: FloorMeasure>(states: Seq<T>, k: int) -> int
    decreases k,
{
    if k <= 0 {
        0
    } else {
        wire_total(states, k - 1) + states[k - 1].wire_spec()
    }
}

/// `v`, or the largest `u128` when it is larger.
pub open spec fn saturated(v: int) -> int {
    if v <= u128::MAX { v } else { u128::MAX as int }
}

/// `states[k]` comes from a state holding the solution of `start` by
/// applying the fitting move `moves[k]`, for every `k` below `n`.
pub open spec fn sampled_from<M, T: Mutation<M>>(start: T, prior: Seq<T>, moves: Seq<M>, states: Seq<T>, n: int) -> bool {
    &&& prior.len() == n
    &&& moves.len() == n
    &&& states.len() == n
    &&& forall|k: int|
        0 <= k < n ==> start.same_solution(&#[trigger] prior[k]) && prior[k].ready() && prior[k].move_fits(&moves[k])
            && prior[k].real_move(&moves[k]) && prior[k].moves_to(&moves[k], &states[k])
}

/// Applies `repetitions` random moves, each undone at once, and returns the
/// sums of the areas and of the doubled wirelengths seen after each move
/// (saturating at the largest value). The representation comes back with
/// the solution that it held.
pub fn sample_perturbations<M, T: Mutation<M> + FloorMeasure>(t: &mut T, repetitions: usize) -> (r: (u128, u128))
    requires
        old(t).ready(),
    ensures
        final(t).ready(),
        old(t).same_solution(final(t)),
        exists|prior: Seq<T>, moves: Seq<M>, states: Seq<T>|
            #[trigger] sampled_from(*old(t), prior, moves, states, repetitions as int) && r.0 == saturated(
                area_total(states, repetitions as int),
            ) && r.1 == saturated(wire_total(states, repetitions as int)),
{
    let mut sum_area: u128 = 0;
    let mut sum_wire: u128 = 0;
    let mut i: usize = 0;
    let ghost start = *t;
    let ghost mut prior: Seq<T> = Seq::empty();
    let ghost mut moves: Seq<M> = Seq::empty();
    let ghost mut states: Seq<T> = Seq::empty();
    proof {
        T::lemma_same_solution_refl(t);
    }
    while i < repetitions
        invariant
            t.ready(),
            start == *old(t),
            old(t).same_solution(t),
            i <= repetitions,
            sampled_from(start, prior, moves, states, i as int),
            area_total(states, i as int) >= 0,
            wire_total(states, i as int) >= 0,
            sum_area == saturated(area_total(states, i as int)),
            sum_wire == saturated(wire_total(states, i as int)),
        decreases repetitions - i,
    {
        let ghost t0 = *t;
        let m = t.get_random_move();
        let ghost t1 = *t;
        proof {
            T::lemma_same_solution_trans(&*old(t), &t0, &t1);
        }
        t.apply_move(&m);
        let ghost t2 = *t;
        let fa = t.floor_area();
        let fw = t.floor_wire();
        sum_area = add_saturating(sum_area, fa as u128);
        sum_wire = add_saturating(sum_wire, fw);
        proof {
            let np = prior.push(t1);
            let nm = moves.push(m);
            let ns = states.push(t2);
            assert forall|k: int| 0 <= k < i + 1 implies start.same_solution(&#[trigger] np[k]) && np[k].ready()
                && np[k].move_fits(&nm[k]) && np[k].real_move(&nm[k]) && np[k].moves_to(&nm[k], &ns[k]) by {
                if k < i {
                    assert(np[k] == prior[k] && nm[k] == moves[k] && ns[k] == states[k]);
                }
            }
            assert(area_total(ns, i as int) == area_total(states, i as int)) by {
                lemma_totals_prefix(states, ns, i as int);
            }
            assert(wire_total(ns, i as int) == wire_total(states, i as int)) by {
                lemma_totals_prefix(states, ns, i as int);
            }
            assert(ns[i as int] == t2);
            prior = np;
            moves = nm;
            states = ns;
        }
        assert(t.ready() && t.move_fits(&m));
        t.apply_move(&m);
        proof {
            T::lemma_move_twice(&t1, &t2, t, &m);
            T::lemma_same_solution_trans(&t0, &t1, t);
            T::lemma_same_solution_trans(&*old(t), &t0, t);
        }
        i += 1;
    }
    assert(sampled_from(*old(t), prior, moves, states, repetitions as int));
    (sum_area, sum_wire)
}

/// Totals over a prefix do not depend on what follows it.
proof fn lemma_totals_prefix<T: FloorMeasure>(a: Seq<T>, b: Seq<T>, k: int)
    requires
        0 <= k <= a.len(),
        k <= b.len(),
        forall|j: int| 0 <= j < k ==> a[j] == b[j],
    ensures
        area_total(a, k) == area_total(b, k),
        wire_total(a, k) == wire_total(b, k),
    decreases k,
{
    if k > 0 {
        lemma_totals_prefix(a, b, k - 1);
    }
}

} // verus!
