//! The structure of a postfix (Polish) expression over modules and cuts.

use vstd::prelude::*;
use crate::geometry::ModuleNode;

verus! {

/// The positions on the evaluation stack after reading the first `k` tokens:
/// a module pushes its position, a cut pops two and pushes its own.
pub open spec fn stack_after(s: Seq<ModuleNode>, k: int) -> Seq<usize>
    decreases k,
{
    if k <= 0 {
        Seq::empty()
    } else {
        let st = stack_after(s, k - 1);
        if s[k - 1] is Module {
            st.push((k - 1) as usize)
        } else {
            st.subrange(0, st.len() - 2).push((k - 1) as usize)
        }
    }
}

/// The left operand of the cut at position `k`.
pub open spec fn left_child(s: Seq<ModuleNode>, k: int) -> int {
    let st = stack_after(s, k);
    st[st.len() - 2] as int
}

/// The right operand of the cut at position `k`.
pub open spec fn right_child(s: Seq<ModuleNode>, k: int) -> int {
    let st = stack_after(s, k);
    st[st.len() - 1] as int
}

/// Every cut finds two operands and one tree remains at the end.
pub open spec fn valid_postfix(s: Seq<ModuleNode>) -> bool {
    &&& 1 <= s.len() < usize::MAX
    &&& forall|k: int| 0 <= k < s.len() && !(s[k] is Module) ==> (#[trigger] stack_after(s, k)).len() >= 2
    &&& stack_after(s, s.len() as int).len() == 1
}

/// The first position of the subtree rooted at position `e`.
#[verifier::opaque]
pub open spec fn span_start(s: Seq<ModuleNode>, e: int) -> int
    decreases e,
{
    if e <= 0 || s[e] is Module {
        e
    } else {
        let l = left_child(s, e);
        if 0 <= l < e {
            span_start(s, l)
        } else {
            e
        }
    }
}

proof fn lemma_span_start_def(s: Seq<ModuleNode>, e: int)
    ensures
        span_start(s, e) == if e <= 0 || s[e] is Module {
            e
        } else {
            let l = left_child(s, e);
            if 0 <= l < e {
                span_start(s, l)
            } else {
                e
            }
        },
{
    reveal(span_start);
}

/// The number of tokens in the subtree rooted at `e`.
pub open spec fn span_size(s: Seq<ModuleNode>, e: int) -> int {
    e + 1 - span_start(s, e)
}

/// The stack holds increasing positions below `k`, ending at `k - 1`; the
/// subtrees that they root tile `0..k`.
pub open spec fn stack_shape(s: Seq<ModuleNode>, k: int) -> bool {
    let st = stack_after(s, k);
    &&& k >= 1 ==> st.len() >= 1 && st[st.len() - 1] == k - 1
    &&& k == 0 ==> st.len() == 0
    &&& forall|i: int| 0 <= i < st.len() ==> #[trigger] st[i] < k
    &&& forall|i: int, j: int| 0 <= i < j < st.len() ==> st[i] < st[j]
    &&& st.len() >= 1 ==> span_start(s, st[0] as int) == 0
    &&& forall|i: int| 0 <= i < st.len() - 1 ==> #[trigger] span_start(s, st[i + 1] as int) == st[i] + 1
    &&& forall|i: int| 0 <= i < st.len() ==> 0 <= #[trigger] span_start(s, st[i] as int) <= st[i]
}

/// Every cut among the first `k` tokens finds two operands.
pub open spec fn prefix_ok(s: Seq<ModuleNode>, k: int) -> bool {
    forall|j: int| 0 <= j < k && !(s[j] is Module) ==> (#[trigger] stack_after(s, j)).len() >= 2
}

#[verifier::rlimit(60)]
pub proof fn lemma_stack_shape(s: Seq<ModuleNode>, k: int)
    requires
        0 <= k <= s.len(),
        s.len() < usize::MAX,
        prefix_ok(s, k),
    ensures
        stack_shape(s, k),
    decreases k,
{
    if k > 0 {
        lemma_stack_shape(s, k - 1);
        let st = stack_after(s, k - 1);
        let nt = stack_after(s, k);
        if s[k - 1] is Module {
            assert(nt == st.push((k - 1) as usize));
            lemma_span_start_def(s, k - 1);
            assert(span_start(s, k - 1) == k - 1);
            if st.len() >= 1 {
                assert(nt[0] == st[0]);
            }
            assert forall|i: int| 0 <= i < nt.len() - 1 implies #[trigger] span_start(s, nt[i + 1] as int) == nt[i] + 1 by {
                if i + 1 < st.len() {
                    assert(nt[i + 1] == st[i + 1]);
                    assert(nt[i] == st[i]);
                } else {
                    assert(nt[i] == st[st.len() - 1]);
                }
            }
            assert forall|i: int| 0 <= i < nt.len() implies 0 <= #[trigger] span_start(s, nt[i] as int) <= nt[i] by {
                if i < st.len() {
                    assert(nt[i] == st[i]);
                }
            }
        } else {
            assert(prefix_ok(s, k));
            assert(st.len() >= 2);
            let base = st.subrange(0, st.len() - 2);
            assert(nt == base.push((k - 1) as usize));
            let l = st[st.len() - 2] as int;
            assert(left_child(s, k - 1) == l);
            assert(0 <= l < k - 1);
            lemma_span_start_def(s, k - 1);
            assert(span_start(s, k - 1) == span_start(s, l));
            if st.len() > 2 {
                assert(nt[0] == st[0]);
                let i = st.len() - 3;
                assert(span_start(s, st[i + 1] as int) == st[i] + 1);
                assert(span_start(s, l) == st[st.len() - 3] + 1);
            } else {
                assert(span_start(s, l) == 0);
            }
            assert forall|i: int| 0 <= i < nt.len() - 1 implies #[trigger] span_start(s, nt[i + 1] as int) == nt[i] + 1 by {
                if i + 1 < base.len() {
                    assert(nt[i + 1] == st[i + 1]);
                    assert(nt[i] == st[i]);
                } else {
                    assert(nt[i] == st[st.len() - 3]);
                }
            }
            assert forall|i: int| 0 <= i < nt.len() implies 0 <= #[trigger] span_start(s, nt[i] as int) <= nt[i] by {
                if i < base.len() {
                    assert(nt[i] == st[i]);
                } else {
                    assert(0 <= span_start(s, l) <= l);
                }
            }
            assert forall|i: int, j: int| 0 <= i < j < nt.len() implies nt[i] < nt[j] by {
                if j < base.len() {
                    assert(nt[i] == st[i] && nt[j] == st[j]);
                } else {
                    assert(nt[i] == st[i]);
                }
            }
        }
    }
}

/// The operands of a cut: the right one is the token just before it, and
/// the left one ends just before the right one's subtree begins; the cut's
/// subtree is the two subtrees and the cut.
#[verifier::rlimit(60)]
pub proof fn lemma_children(s: Seq<ModuleNode>, k: int)
    requires
        0 <= k < s.len(),
        s.len() < usize::MAX,
        prefix_ok(s, k + 1),
        !(s[k] is Module),
    ensures
        right_child(s, k) == k - 1,
        0 <= left_child(s, k) < right_child(s, k),
        span_start(s, right_child(s, k)) == left_child(s, k) + 1,
        span_start(s, k) == span_start(s, left_child(s, k)),
        0 <= span_start(s, left_child(s, k)) <= left_child(s, k),
        span_size(s, k) == span_size(s, left_child(s, k)) + span_size(s, right_child(s, k)) + 1,
{
    lemma_stack_shape(s, k);
    lemma_span_start_def(s, k);
    let st = stack_after(s, k);
    assert(st.len() >= 2);
    assert(st[st.len() - 2] < st[st.len() - 1]);
    let i = st.len() - 2;
    assert(span_start(s, st[i + 1] as int) == st[i] + 1);
    assert(span_start(s, st[st.len() - 1] as int) == st[st.len() - 2] + 1);
    assert(0 <= span_start(s, st[st.len() - 2] as int) <= st[st.len() - 2]);
}

/// Every subtree lies within the expression.
pub proof fn lemma_span(s: Seq<ModuleNode>, k: int)
    requires
        0 <= k < s.len(),
        s.len() < usize::MAX,
        prefix_ok(s, k + 1),
    ensures
        0 <= span_start(s, k) <= k,
        1 <= span_size(s, k) <= s.len(),
{
    lemma_stack_shape(s, k + 1);
    let st = stack_after(s, k + 1);
    assert(st[st.len() - 1] == k);
}

/// A position that has left the stack never comes back: every entry of a
/// later stack is newer than `k` or was already on the stack after `k`.
pub proof fn lemma_stack_history(s: Seq<ModuleNode>, k: int, j: int)
    requires
        0 <= k < j <= s.len(),
        s.len() < usize::MAX,
        prefix_ok(s, j),
    ensures
        forall|i: int|
            0 <= i < stack_after(s, j).len() ==> #[trigger] stack_after(s, j)[i] > k || stack_after(
                s,
                k + 1,
            ).contains(stack_after(s, j)[i]),
    decreases j - k,
{
    if j > k + 1 {
        lemma_stack_history(s, k, j - 1);
        let st = stack_after(s, j - 1);
        let nt = stack_after(s, j);
        if s[j - 1] is Module {
            assert(nt == st.push((j - 1) as usize));
        } else {
            assert(st.len() >= 2);
            assert(nt == st.subrange(0, st.len() - 2).push((j - 1) as usize));
        }
        assert forall|i: int| 0 <= i < nt.len() implies #[trigger] nt[i] > k || stack_after(s, k + 1).contains(nt[i]) by {
            if i < nt.len() - 1 {
                assert(nt[i] == st[i]);
            }
        }
    } else {
        let st = stack_after(s, j);
        assert forall|i: int| 0 <= i < st.len() implies #[trigger] st[i] > k || stack_after(s, k + 1).contains(st[i]) by {
            assert(stack_after(s, k + 1)[i] == st[i]);
        }
    }
}

/// Each position is an operand of at most one cut.
pub proof fn lemma_child_unique(s: Seq<ModuleNode>, k1: int, k2: int, c: int)
    requires
        0 <= k1 < k2 < s.len(),
        s.len() < usize::MAX,
        prefix_ok(s, k2 + 1),
        !(s[k1] is Module),
        !(s[k2] is Module),
        c == left_child(s, k1) || c == right_child(s, k1),
    ensures
        c != left_child(s, k2),
        c != right_child(s, k2),
{
    lemma_stack_shape(s, k1);
    lemma_stack_shape(s, k1 + 1);
    lemma_stack_shape(s, k2);
    lemma_stack_history(s, k1, k2);
    let st = stack_after(s, k1);
    assert(st.len() >= 2);
    let nt = stack_after(s, k1 + 1);
    assert(nt == st.subrange(0, st.len() - 2).push(k1 as usize));
    let st2 = stack_after(s, k2);
    assert(c < k1);
    assert(!nt.contains(c as usize)) by {
        if nt.contains(c as usize) {
            let i = choose|i: int| 0 <= i < nt.len() && nt[i] == c as usize;
            if i < nt.len() - 1 {
                assert(nt[i] == st[i]);
                assert(st[i] < st[st.len() - 2]);
            }
        }
    }
    let a = st2[st2.len() - 2];
    let b = st2[st2.len() - 1];
    assert(a > k1 || nt.contains(a));
    assert(b > k1 || nt.contains(b));
}

/// A module is a subtree of one token.
pub proof fn lemma_leaf_span(s: Seq<ModuleNode>, k: int)
    requires
        0 <= k < s.len(),
        s[k] is Module,
    ensures
        span_start(s, k) == k,
        span_size(s, k) == 1,
{
    lemma_span_start_def(s, k);
}

/// A position that leaves the stack is taken as an operand by a cut.
pub proof fn lemma_popped_by_cut(s: Seq<ModuleNode>, k: int, j1: int, j2: int)
    requires
        0 <= j1 < j2 <= s.len(),
        s.len() < usize::MAX,
        prefix_ok(s, j2),
        stack_after(s, j1).contains(k as usize),
        !stack_after(s, j2).contains(k as usize),
        0 <= k < s.len(),
    ensures
        exists|j: int| j1 <= j < j2 && !(#[trigger] s[j] is Module) && (left_child(s, j) == k || right_child(s, j) == k),
    decreases j2 - j1,
{
    let st = stack_after(s, j2 - 1);
    let nt = stack_after(s, j2);
    if st.contains(k as usize) {
        let i = choose|i: int| 0 <= i < st.len() && st[i] == k as usize;
        if s[j2 - 1] is Module {
            assert(nt == st.push((j2 - 1) as usize));
            assert(nt[i] == st[i]);
            assert(nt.contains(k as usize));
        } else {
            assert(st.len() >= 2);
            assert(nt == st.subrange(0, st.len() - 2).push((j2 - 1) as usize));
            if i < st.len() - 2 {
                assert(nt[i] == st[i]);
                assert(nt.contains(k as usize));
            }
            assert(left_child(s, j2 - 1) == k || right_child(s, j2 - 1) == k);
        }
    } else {
        lemma_popped_by_cut(s, k, j1, j2 - 1);
    }
}

/// Every position but the last is an operand of some later cut.
pub proof fn lemma_has_parent(s: Seq<ModuleNode>, k: int)
    requires
        valid_postfix(s),
        0 <= k < s.len() - 1,
    ensures
        exists|j: int| k < j < s.len() && !(#[trigger] s[j] is Module) && (left_child(s, j) == k || right_child(s, j) == k),
{
    let n = s.len() as int;
    assert(prefix_ok(s, n));
    lemma_stack_shape(s, k + 1);
    lemma_stack_shape(s, n);
    let st = stack_after(s, k + 1);
    assert(st[st.len() - 1] == k);
    assert(st.contains(k as usize));
    let fin = stack_after(s, n);
    assert(!fin.contains(k as usize)) by {
        if fin.contains(k as usize) {
            let i = choose|i: int| 0 <= i < fin.len() && fin[i] == k as usize;
            assert(fin[fin.len() - 1] == n - 1);
        }
    }
    lemma_popped_by_cut(s, k, k + 1, n);
}

/// The number of cuts among the first `k` tokens.
pub open spec fn cuts(s: Seq<ModuleNode>, k: int) -> int
    decreases k,
{
    if k <= 0 {
        0
    } else {
        cuts(s, k - 1) + if s[k - 1] is Module { 0int } else { 1int }
    }
}

/// The stack depth after `k` tokens when no cut has run short: modules
/// minus cuts.
pub open spec fn depth(s: Seq<ModuleNode>, k: int) -> int {
    k - 2 * cuts(s, k)
}

/// Every cut among the first `k` tokens finds a depth of at least two.
pub open spec fn depth_ok(s: Seq<ModuleNode>, k: int) -> bool {
    forall|j: int| 0 <= j < k && !(#[trigger] s[j] is Module) ==> depth(s, j) >= 2
}

/// While the depth never runs short, the stack holds `depth` entries.
pub proof fn lemma_depth(s: Seq<ModuleNode>, k: int)
    requires
        0 <= k <= s.len(),
        depth_ok(s, k),
    ensures
        prefix_ok(s, k),
        stack_after(s, k).len() == depth(s, k),
    decreases k,
{
    if k > 0 {
        lemma_depth(s, k - 1);
        assert forall|j: int| 0 <= j < k && !(#[trigger] s[j] is Module) implies (stack_after(s, j)).len() >= 2 by {
            if j < k - 1 {
                assert(prefix_ok(s, k - 1));
                assert(stack_after(s, j).len() >= 2);
            } else {
                assert(depth(s, j) >= 2);
            }
        }
    }
}

/// A postfix expression is valid when every cut finds two operands and the
/// final depth is one.
pub proof fn lemma_valid_by_depth(s: Seq<ModuleNode>)
    requires
        1 <= s.len() < usize::MAX,
        depth_ok(s, s.len() as int),
        depth(s, s.len() as int) == 1,
    ensures
        valid_postfix(s),
{
    lemma_depth(s, s.len() as int);
}

/// A valid expression has the depths of one.
pub proof fn lemma_depth_of_valid(s: Seq<ModuleNode>, k: int)
    requires
        valid_postfix(s),
        0 <= k <= s.len(),
    ensures
        depth_ok(s, k),
        stack_after(s, k).len() == depth(s, k),
    decreases k,
{
    if k > 0 {
        lemma_depth_of_valid(s, k - 1);
        assert forall|j: int| 0 <= j < k && !(#[trigger] s[j] is Module) implies depth(s, j) >= 2 by {
            if j < k - 1 {
                assert(depth_ok(s, k - 1));
            } else {
                assert(stack_after(s, j).len() >= 2);
            }
        }
    }
}

/// The cut counts of two expressions whose tokens agree in kind below `k`
/// agree.
pub proof fn lemma_cuts_same(s: Seq<ModuleNode>, t: Seq<ModuleNode>, k: int)
    requires
        0 <= k <= s.len(),
        k <= t.len(),
        forall|j: int| 0 <= j < k ==> (#[trigger] s[j] is Module) == (t[j] is Module),
    ensures
        cuts(s, k) == cuts(t, k),
    decreases k,
{
    if k > 0 {
        lemma_cuts_same(s, t, k - 1);
        assert((s[k - 1] is Module) == (t[k - 1] is Module));
    }
}

/// Expressions whose tokens agree in kind everywhere have the same stacks.
pub proof fn lemma_same_pattern(s: Seq<ModuleNode>, t: Seq<ModuleNode>, k: int)
    requires
        s.len() == t.len(),
        0 <= k <= s.len(),
        forall|j: int| 0 <= j < s.len() ==> (#[trigger] s[j] is Module) == (t[j] is Module),
    ensures
        stack_after(s, k) == stack_after(t, k),
    decreases k,
{
    if k > 0 {
        lemma_same_pattern(s, t, k - 1);
        assert((s[k - 1] is Module) == (t[k - 1] is Module));
    }
}

/// Expressions whose tokens agree in kind have the same subtree spans.
pub proof fn lemma_same_pattern_span(s: Seq<ModuleNode>, t: Seq<ModuleNode>, e: int)
    requires
        s.len() == t.len(),
        0 <= e < s.len(),
        forall|j: int| 0 <= j < s.len() ==> (#[trigger] s[j] is Module) == (t[j] is Module),
    ensures
        span_start(s, e) == span_start(t, e),
    decreases e,
{
    lemma_span_start_def(s, e);
    lemma_span_start_def(t, e);
    lemma_same_pattern(s, t, e);
    if e > 0 && !(s[e] is Module) {
        let l = left_child(s, e);
        assert(l == left_child(t, e));
        if 0 <= l < e {
            lemma_same_pattern_span(s, t, l);
        }
    }
}

} // verus!
