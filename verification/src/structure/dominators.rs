//! Depth-first order and dominator trees.

use std::collections::HashSet;

use vstd::prelude::*;

use crate::cfg::Cfg;
use crate::structure::graph;
use crate::sets::copy_list;
use crate::structure::graph::Graph;
use crate::structure::postdom;

verus! {

broadcast use vstd::std_specs::hash::group_hash_axioms;

/// Immediate dominators: `idom[b]` is the parent of `b` in the dominator tree;
/// the root and every block outside the tree are their own parents.
#[derive(Debug, Clone)]
pub struct DomInfo {
    pub idom: Vec<usize>,
}

impl Graph {
    /// Every path from `root` to `b` visits `a`.
    pub open spec fn dominates(self, root: usize, a: usize, b: usize) -> bool {
        forall|p: Seq<usize>|
            #[trigger] self.path(p) && p[0] == root && p.last() == b ==> p.contains(a)
    }

    /// `d` is the immediate dominator of `b`: it strictly dominates `b`, and
    /// every strict dominator of `b` dominates it.
    pub open spec fn immediate(self, root: usize, d: usize, b: usize) -> bool {
        &&& d != b
        &&& self.reaches(root, d)
        &&& self.dominates(root, d, b)
        &&& forall|a: usize| a != b && #[trigger] self.dominates(root, a, b) ==> self.dominates(root, a, d)
    }

    /// `idom` is the dominator tree of the nodes reached from `root`: each but
    /// the root hangs under its immediate dominator, ranks fall toward the
    /// root, and all other nodes are their own parents.
    pub open spec fn dom_tree(self, root: usize, idom: Seq<usize>) -> bool {
        &&& idom.len() == self.adj.len()
        &&& forall|b: int| 0 <= b < idom.len() ==> #[trigger] idom[b] < idom.len()
        &&& forall|b: usize|
            b < idom.len() && (b == root || !self.reaches(root, b)) ==> #[trigger] idom[b as int] == b
        &&& forall|b: usize|
            b < idom.len() && b != root && #[trigger] self.reaches(root, b) ==> self.immediate(
                root,
                idom[b as int],
                b,
            )
        &&& exists|rank: Seq<nat>| #[trigger] ranked(idom, rank)
    }
}

/// A rank per node, below the node count, that falls along every parent link.
pub open spec fn ranked(idom: Seq<usize>, rank: Seq<nat>) -> bool {
    &&& rank.len() == idom.len()
    &&& forall|b: int| 0 <= b < idom.len() ==> #[trigger] rank[b] < idom.len()
    &&& forall|b: int|
        0 <= b < idom.len() && idom[b] != b ==> rank[idom[b] as int] < #[trigger] rank[b]
}

/// `k` parent links up from `b`.
pub open spec fn ancestor(idom: Seq<usize>, b: usize, k: nat) -> usize
    decreases k,
{
    if k == 0 {
        b
    } else {
        idom[ancestor(idom, b, (k - 1) as nat) as int]
    }
}

/// `a` is met on the way up from `b`, at most two links more than there are nodes.
pub open spec fn is_above(idom: Seq<usize>, a: usize, b: usize) -> bool {
    &&& a < idom.len()
    &&& b < idom.len()
    &&& exists|k: nat| k <= idom.len() + 2 && #[trigger] ancestor(idom, b, k) == a
}

impl DomInfo {
    /// Parent links stay inside the tree.
    pub open spec fn wf(self) -> bool {
        forall|b: int| 0 <= b < self.idom@.len() ==> #[trigger] self.idom@[b] < self.idom@.len()
    }

    /// `a` is met on the way up from `b`.
    pub open spec fn above(self, a: usize, b: usize) -> bool {
        is_above(self.idom@, a, b)
    }

    pub fn dominates(&self, a: usize, b: usize) -> (r: bool)
        requires
            self.wf(),
            self.idom@.len() < usize::MAX - 2,
        ensures
            r == self.above(a, b),
    {
        let n = self.idom.len();
        if a >= n || b >= n {
            return false;
        }
        let mut cur: usize = b;
        let mut guard: usize = 0;
        loop
            invariant
                self.wf(),
                n == self.idom@.len(),
                n < usize::MAX - 2,
                a < n,
                b < n,
                cur < n,
                guard <= n + 2,
                cur == ancestor(self.idom@, b, guard as nat),
                forall|k: nat| k < guard ==> #[trigger] ancestor(self.idom@, b, k) != a,
            decreases n + 3 - guard,
        {
            if cur == a {
                return true;
            }
            let next = self.idom[cur];
            if next == cur || guard > n + 1 {
                proof {
                    assert forall|k: nat| k <= n + 2 implies #[trigger] ancestor(self.idom@, b, k) != a by {
                        if k > guard {
                            lemma_ancestor_stuck(self.idom@, b, guard as nat, k);
                        }
                    }
                }
                return false;
            }
            guard += 1;
            cur = next;
        }
    }
}

proof fn lemma_ancestor_stuck(idom: Seq<usize>, b: usize, j: nat, k: nat)
    requires
        j <= k,
        idom[ancestor(idom, b, j) as int] == ancestor(idom, b, j),
    ensures
        ancestor(idom, b, k) == ancestor(idom, b, j),
    decreases k,
{
    if j < k {
        lemma_ancestor_stuck(idom, b, j, (k - 1) as nat);
    }
}

/// Climbing a dominator tree finds exactly the dominators of a reached block.
pub proof fn law_dominates(g: Graph, root: usize, d: DomInfo, a: usize, b: usize)
    requires
        g.dom_tree(root, d.idom@),
        g.closed(),
        root < g.adj.len(),
        a < g.adj.len(),
        g.reaches(root, b),
    ensures
        d.above(a, b) <==> g.dominates(root, a, b),
{
    g.lemma_reach_nodes(root, b);
    let rank = choose|rank: Seq<nat>| #[trigger] ranked(d.idom@, rank);
    if d.above(a, b) {
        let k = choose|k: nat| k <= d.idom@.len() + 2 && #[trigger] ancestor(d.idom@, b, k) == a;
        lemma_ancestor_dominates(g, root, d.idom@, b, k);
    }
    if g.dominates(root, a, b) {
        let k = lemma_dominator_found(g, root, d.idom@, rank, a, b);
        assert(ancestor(d.idom@, b, k) == a);
    }
}

proof fn lemma_ancestor_dominates(g: Graph, root: usize, idom: Seq<usize>, b: usize, k: nat)
    requires
        g.dom_tree(root, idom),
        g.closed(),
        root < g.adj.len(),
        g.reaches(root, b),
    ensures
        g.dominates(root, ancestor(idom, b, k), b),
        g.reaches(root, ancestor(idom, b, k)),
    decreases k,
{
    if k == 0 {
        assert forall|p: Seq<usize>| #[trigger] g.path(p) && p[0] == root && p.last() == b implies p.contains(b) by {
            assert(p[p.len() - 1] == b);
        }
    } else {
        lemma_ancestor_dominates(g, root, idom, b, (k - 1) as nat);
        let c = ancestor(idom, b, (k - 1) as nat);
        g.lemma_reach_nodes(root, c);
        if c != root {
            let e = idom[c as int];
            assert(g.immediate(root, e, c));
            lemma_dominates_trans(g, root, e, c, b);
        }
    }
}

proof fn lemma_dominates_trans(g: Graph, root: usize, a: usize, c: usize, b: usize)
    requires
        g.dominates(root, a, c),
        g.dominates(root, c, b),
    ensures
        g.dominates(root, a, b),
{
    assert forall|p: Seq<usize>| #[trigger] g.path(p) && p[0] == root && p.last() == b implies p.contains(a) by {
        let j = choose|j: int| 0 <= j < p.len() && p[j] == c;
        let q = p.take(j + 1);
        lemma_path_prefix(g, p, j + 1);
        assert(q.last() == c && q[0] == root);
        let i = choose|i: int| 0 <= i < q.len() && q[i] == a;
        assert(p[i] == a);
    }
}

proof fn lemma_dominator_found(g: Graph, root: usize, idom: Seq<usize>, rank: Seq<nat>, a: usize, b: usize) -> (k: nat)
    requires
        g.dom_tree(root, idom),
        ranked(idom, rank),
        g.closed(),
        root < g.adj.len(),
        g.reaches(root, b),
        g.dominates(root, a, b),
    ensures
        k <= rank[b as int],
        b < idom.len(),
        k <= idom.len(),
        ancestor(idom, b, k) == a,
    decreases rank[b as int],
{
    g.lemma_reach_nodes(root, b);
    if a == b {
        assert(rank[b as int] < idom.len());
        0
    } else {
        if b == root {
            let p = seq![root];
            assert(g.path(p));
            assert(p.contains(a));
            assert(false);
        }
        let d = idom[b as int];
        assert(g.immediate(root, d, b));
        assert(rank[b as int] < idom.len());
        let j = lemma_dominator_found(g, root, idom, rank, a, d);
        lemma_ancestor_shift(idom, b, j);
        (j + 1) as nat
    }
}

proof fn lemma_ancestor_shift(idom: Seq<usize>, b: usize, j: nat)
    ensures
        ancestor(idom, b, (j + 1) as nat) == ancestor(idom, idom[b as int], j),
    decreases j,
{
    if j > 0 {
        lemma_ancestor_shift(idom, b, (j - 1) as nat);
    } else {
        assert(ancestor(idom, b, 1) == idom[ancestor(idom, b, 0) as int]);
    }
}

proof fn lemma_path_prefix(g: Graph, p: Seq<usize>, k: int)
    requires
        g.path(p),
        0 < k <= p.len(),
    ensures
        g.path(p.take(k)),
{
    let q = p.take(k);
    assert forall|i: int| 0 <= i < q.len() - 1 implies g.edge(#[trigger] q[i], q[i + 1]) by {
        assert(g.edge(p[i], p[i + 1]));
    }
}

// ---------------------------------------------------------------------------
// Depth-first order
// ---------------------------------------------------------------------------

/// Depth-first search over the successors of `b` from position `idx` on: the
/// nodes seen afterwards, and the newly finished nodes in finishing order.
pub open spec fn visit(adj: Seq<Seq<usize>>, b: usize, idx: nat, seen: Set<usize>) -> (Set<usize>, Seq<usize>)
    decreases graph::unseen(adj.len(), seen), adj[b as int].len() - idx,
{
    if b >= adj.len() || idx >= adj[b as int].len() {
        (seen, Seq::empty())
    } else {
        let s = adj[b as int][idx as int];
        if seen.contains(s) || s >= adj.len() || adj.len() > usize::MAX {
            visit(adj, b, (idx + 1) as nat, seen)
        } else {
            proof {
                graph::lemma_unseen_insert(adj.len(), seen, s);
            }
            let (seen1, done1) = visit(adj, s, 0, seen.insert(s));
            if graph::unseen(adj.len(), seen1) < graph::unseen(adj.len(), seen) {
                let (seen2, done2) = visit(adj, b, (idx + 1) as nat, seen1);
                (seen2, done1.push(s) + done2)
            } else {
                (seen1, done1.push(s))
            }
        }
    }
}

/// The finishing order of a depth-first search from `root` that takes
/// successors in list order.
pub open spec fn postorder(adj: Seq<Seq<usize>>, root: usize) -> Seq<usize> {
    visit(adj, root, 0, Set::empty().insert(root)).1.push(root)
}

proof fn lemma_visit_grows(adj: Seq<Seq<usize>>, b: usize, idx: nat, seen: Set<usize>)
    ensures
        seen.subset_of(visit(adj, b, idx, seen).0),
    decreases graph::unseen(adj.len(), seen), adj[b as int].len() - idx,
{
    if b >= adj.len() || idx >= adj[b as int].len() {
    } else {
        let s = adj[b as int][idx as int];
        if seen.contains(s) || s >= adj.len() || adj.len() > usize::MAX {
            lemma_visit_grows(adj, b, (idx + 1) as nat, seen);
        } else {
            graph::lemma_unseen_insert(adj.len(), seen, s);
            lemma_visit_grows(adj, s, 0, seen.insert(s));
            let (seen1, done1) = visit(adj, s, 0, seen.insert(s));
            if graph::unseen(adj.len(), seen1) < graph::unseen(adj.len(), seen) {
                lemma_visit_grows(adj, b, (idx + 1) as nat, seen1);
            }
        }
    }
}

/// What a pending stack of (node, next successor) pairs will finish.
spec fn unwind(adj: Seq<Seq<usize>>, stack: Seq<(usize, usize)>, seen: Set<usize>, out: Seq<usize>) -> Seq<usize>
    decreases stack.len(),
{
    if stack.len() == 0 {
        out
    } else {
        let (b, idx) = stack.last();
        let (seen1, done1) = visit(adj, b, idx as nat, seen);
        unwind(adj, stack.drop_last(), seen1, out + done1.push(b))
    }
}

/// The successor lists as sequences.
pub open spec fn lists(v: Seq<Vec<usize>>) -> Seq<Seq<usize>> {
    Seq::new(v.len(), |i: int| v[i]@)
}

/// Properties of a depth-first finishing order that do not depend on list order.
spec fn finished(g: Graph, root: usize, out: Seq<usize>) -> bool {
    &&& out.len() > 0
    &&& out.last() == root
    &&& out.no_duplicates()
    &&& forall|b: usize| out.contains(b) <==> g.reaches(root, b)
    &&& forall|i: int| 0 <= i < out.len() - 1 ==> has_later_pred(g, out, i)
}

spec fn has_later_pred(g: Graph, out: Seq<usize>, i: int) -> bool {
    exists|j: int| i < j < out.len() && #[trigger] g.edge(out[j], out[i])
}

spec fn on_stack(stack: Seq<(usize, usize)>, b: usize) -> bool {
    exists|k: int| 0 <= k < stack.len() && (#[trigger] stack[k]).0 == b
}

spec fn later_or_open(g: Graph, stack: Seq<(usize, usize)>, out: Seq<usize>, i: int) -> bool {
    ||| exists|j: int| i < j < out.len() && #[trigger] g.edge(out[j], out[i])
    ||| exists|k: int| 0 <= k < stack.len() && g.edge((#[trigger] stack[k]).0, out[i])
}

spec fn search_inv(g: Graph, root: usize, stack: Seq<(usize, usize)>, seen: Set<usize>, out: Seq<usize>) -> bool {
    &&& stack.len() > 0 ==> stack[0].0 == root
    &&& stack.len() == 0 ==> out.len() > 0 && out.last() == root
    &&& seen.contains(root)
    &&& forall|k: int| 0 <= k < stack.len() ==> (#[trigger] stack[k]).0 < g.adj.len() && stack[k].1 <= g.adj[stack[k].0 as int].len()
    &&& forall|b: usize| #[trigger] seen.contains(b) ==> b < g.adj.len() && g.reaches(root, b)
    &&& forall|b: usize| #[trigger] seen.contains(b) <==> on_stack(stack, b) || out.contains(b)
    &&& forall|j: int, k: int| 0 <= j < k < stack.len() ==> (#[trigger] stack[j]).0 != (#[trigger] stack[k]).0
    &&& forall|i: int, k: int| 0 <= i < out.len() && 0 <= k < stack.len() ==> #[trigger] out[i] != (#[trigger] stack[k]).0
    &&& out.no_duplicates()
    &&& forall|k: int| 1 <= k < stack.len() ==> g.edge(stack[k - 1].0, (#[trigger] stack[k]).0)
    &&& forall|i: int| 0 <= i < out.len() && out[i] != root ==> #[trigger] later_or_open(g, stack, out, i)
    &&& forall|i: int, y: usize| 0 <= i < out.len() && #[trigger] g.edge(out[i], y) ==> seen.contains(y)
    &&& forall|k: int, m: int|
        0 <= k < stack.len() && 0 <= m < stack[k].1 ==> seen.contains(#[trigger] g.adj[stack[k].0 as int][m])
}

#[verifier::rlimit(60)]
#[verifier::spinoff_prover]
proof fn lemma_search_push(g: Graph, root: usize, stack: Seq<(usize, usize)>, stack2: Seq<(usize, usize)>, seen: Set<usize>, out: Seq<usize>, s: usize)
    requires
        g.bar == Set::<usize>::empty(),
        search_inv(g, root, stack, seen, out),
        stack.len() > 0,
        stack.last().1 < g.adj[stack.last().0 as int].len(),
        s == g.adj[stack.last().0 as int][stack.last().1 as int],
        s < g.adj.len(),
        !seen.contains(s),
        stack2 == stack.update(stack.len() - 1, (stack.last().0, (stack.last().1 + 1) as usize)).push((s, 0usize)),
        stack.last().1 + 1 <= usize::MAX,
    ensures
        search_inv(g, root, stack2, seen.insert(s), out),
{
    let b = stack.last().0;
    let seen2 = seen.insert(s);
    let top = stack.len() - 1;
    assert(g.adj[b as int].contains(s));
    assert(g.edge(b, s));
    assert(on_stack(stack, stack[top].0));
    assert(seen.contains(b));
    g.lemma_reaches_step(root, b, s);
    assert(stack2[top + 1] == (s, 0usize));
    assert(stack2[top].0 == b);
    assert forall|k: int| 0 <= k <= top implies (#[trigger] stack2[k]).0 == stack[k].0 by {}
    assert forall|x: usize| #[trigger] seen2.contains(x) <==> on_stack(stack2, x) || out.contains(x) by {
        if on_stack(stack, x) {
            let k = choose|k: int| 0 <= k < stack.len() && (#[trigger] stack[k]).0 == x;
            assert(stack2[k].0 == x);
        }
        if x == s {
            assert(stack2[top + 1].0 == x);
        }
        if on_stack(stack2, x) {
            let k = choose|k: int| 0 <= k < stack2.len() && (#[trigger] stack2[k]).0 == x;
            if k <= top {
                assert(stack[k].0 == x);
                assert(on_stack(stack, x));
            }
        }
    }
    assert forall|i: int| 0 <= i < out.len() && out[i] != root implies #[trigger] later_or_open(g, stack2, out, i) by {
        assert(later_or_open(g, stack, out, i));
        if exists|k: int| 0 <= k < stack.len() && g.edge((#[trigger] stack[k]).0, out[i]) {
            let k = choose|k: int| 0 <= k < stack.len() && g.edge((#[trigger] stack[k]).0, out[i]);
            assert(g.edge(stack2[k].0, out[i]));
        }
    }
    assert forall|j: int, k: int| 0 <= j < k < stack2.len() implies (#[trigger] stack2[j]).0 != (#[trigger] stack2[k]).0 by {
        assert(on_stack(stack, stack[j].0));
    }
    assert forall|i: int, k: int| 0 <= i < out.len() && 0 <= k < stack2.len() implies #[trigger] out[i] != (#[trigger] stack2[k]).0 by {
        assert(out.contains(out[i]));
        if k <= top {
            assert(out[i] != stack[k].0);
        }
    }
    assert forall|k: int| 1 <= k < stack2.len() implies g.edge(stack2[k - 1].0, (#[trigger] stack2[k]).0) by {
        if k <= top {
            assert(g.edge(stack[k - 1].0, stack[k].0));
        }
    }
    assert forall|k: int, m: int|
        0 <= k < stack2.len() && 0 <= m < stack2[k].1 implies seen2.contains(#[trigger] g.adj[stack2[k].0 as int][m]) by {
        if k < top || m < stack[top].1 {
            assert(seen.contains(g.adj[stack[k].0 as int][m]));
        }
    }
}

#[verifier::rlimit(60)]
#[verifier::spinoff_prover]
proof fn lemma_search_pop(g: Graph, root: usize, stack: Seq<(usize, usize)>, seen: Set<usize>, out: Seq<usize>)
    requires
        g.bar == Set::<usize>::empty(),
        search_inv(g, root, stack, seen, out),
        stack.len() > 0,
        stack.last().1 == g.adj[stack.last().0 as int].len(),
    ensures
        search_inv(g, root, stack.drop_last(), seen, out.push(stack.last().0)),
{
    let b = stack.last().0;
    let top = stack.len() - 1;
    let stack2 = stack.drop_last();
    let out2 = out.push(b);
    assert forall|x: usize| #[trigger] seen.contains(x) <==> on_stack(stack2, x) || out2.contains(x) by {
        if on_stack(stack, x) {
            let k = choose|k: int| 0 <= k < stack.len() && (#[trigger] stack[k]).0 == x;
            if k < top {
                assert(stack2[k].0 == x);
            } else {
                assert(out2[out.len() as int] == x);
            }
        }
        if out.contains(x) {
            let i = choose|i: int| 0 <= i < out.len() && out[i] == x;
            assert(out2[i] == x);
        }
        if on_stack(stack2, x) {
            let k = choose|k: int| 0 <= k < stack2.len() && (#[trigger] stack2[k]).0 == x;
            assert(stack[k].0 == x);
        }
        if out2.contains(x) {
            let i = choose|i: int| 0 <= i < out2.len() && out2[i] == x;
            if i < out.len() {
                assert(out[i] == x);
            } else {
                assert(stack[top].0 == x);
            }
        }
    }
    assert forall|i: int| 0 <= i < out2.len() && out2[i] != root implies #[trigger] later_or_open(g, stack2, out2, i) by {
        if i < out.len() {
            assert(later_or_open(g, stack, out, i));
            if exists|j: int| i < j < out.len() && #[trigger] g.edge(out[j], out[i]) {
                let j = choose|j: int| i < j < out.len() && #[trigger] g.edge(out[j], out[i]);
                assert(g.edge(out2[j], out2[i]));
            } else {
                let k = choose|k: int| 0 <= k < stack.len() && g.edge((#[trigger] stack[k]).0, out[i]);
                if k == top {
                    assert(g.edge(out2[out.len() as int], out2[i]));
                } else {
                    assert(g.edge(stack2[k].0, out2[i]));
                }
            }
        } else {
            assert(top > 0);
            assert(g.edge(stack[top - 1].0, stack[top].0));
            assert(g.edge(stack2[top - 1].0, out2[i]));
        }
    }
    assert forall|i: int, y: usize| 0 <= i < out2.len() && #[trigger] g.edge(out2[i], y) implies seen.contains(y) by {
        if i == out.len() {
            let m = choose|m: int| 0 <= m < g.adj[b as int].len() && g.adj[b as int][m] == y;
            assert(seen.contains(g.adj[stack[top].0 as int][m]));
        } else {
            assert(g.edge(out[i], y));
        }
    }
    assert forall|i: int, j: int| 0 <= i < out2.len() && 0 <= j < out2.len() && i != j implies out2[i] != out2[j] by {
        if i < out.len() && j < out.len() {
        } else if i < out.len() {
            assert(out[i] != stack[top].0);
        } else {
            assert(out[j] != stack[top].0);
        }
    }
    assert forall|i: int, k: int| 0 <= i < out2.len() && 0 <= k < stack2.len() implies #[trigger] out2[i] != (#[trigger] stack2[k]).0 by {
        if i < out.len() {
            assert(out[i] != stack[k].0);
        } else {
            assert(stack[k].0 != stack[top].0);
        }
    }
    assert forall|k: int| 1 <= k < stack2.len() implies g.edge(stack2[k - 1].0, (#[trigger] stack2[k]).0) by {
        assert(g.edge(stack[k - 1].0, stack[k].0));
    }
    assert forall|k: int, m: int|
        0 <= k < stack2.len() && 0 <= m < stack2[k].1 implies seen.contains(#[trigger] g.adj[stack2[k].0 as int][m]) by {
        assert(seen.contains(g.adj[stack[k].0 as int][m]));
    }
    assert forall|k: int| 0 <= k < stack2.len() implies (#[trigger] stack2[k]).0 < g.adj.len() && stack2[k].1 <= g.adj[stack2[k].0 as int].len() by {
        assert(stack[k].0 < g.adj.len());
    }
}

/// Depth-first finishing order from `root`.
#[verifier::rlimit(60)]
#[verifier::spinoff_prover]
fn search(succ: &Vec<Vec<usize>>, root: usize) -> (out: Vec<usize>)
    requires
        root < succ@.len(),
        (Graph { adj: lists(succ@), bar: Set::empty() }).closed(),
    ensures
        out@ == postorder(lists(succ@), root),
        finished(Graph { adj: lists(succ@), bar: Set::empty() }, root, out@),
{
    let ghost adj = lists(succ@);
    let ghost g = Graph { adj, bar: Set::empty() };
    let n: usize = succ.len();
    let mut seen: HashSet<usize> = HashSet::new();
    let mut out: Vec<usize> = Vec::new();
    let mut stack: Vec<(usize, usize)> = Vec::new();
    seen.insert(root);
    stack.push((root, 0));
    proof {
        g.lemma_reaches_self(root);
        assert(stack@[0] == (root, 0usize));
        assert(seen@ =~= Set::empty().insert(root));
        assert(stack@.drop_last() =~= Seq::empty());
        let (s1, d1) = visit(adj, root, 0, seen@);
        assert(unwind(adj, stack@.drop_last(), s1, out@ + d1.push(root)) == out@ + d1.push(root));
        assert(out@ + d1.push(root) =~= postorder(adj, root));
        assert(search_inv(g, root, stack@, seen@, out@));
    }
    while stack.len() > 0
        invariant
            adj == lists(succ@),
            n == adj.len(),
            g == (Graph { adj, bar: Set::empty() }),
            g.closed(),
            root < succ@.len(),
            search_inv(g, root, stack@, seen@, out@),
            unwind(adj, stack@, seen@, out@) == postorder(adj, root),
        decreases
            graph::unseen(adj.len(), seen@),
            stack.len(),
            if stack@.len() > 0 { adj[stack@.last().0 as int].len() - stack@.last().1 } else { 0 },
    {
        let top = stack.len() - 1;
        let (b, idx) = stack[top];
        let ghost st0 = stack@;
        assert(st0[top as int].0 < g.adj.len());
        if idx < succ[b].len() {
            let s = succ[b][idx];
            assert(adj[b as int][idx as int] == s);
            assert(g.adj[b as int][idx as int] < g.adj.len());
            stack[top] = (b, idx + 1);
            if !seen.contains(&s) {
                let ghost seen0 = seen@;
                proof {
                    graph::lemma_unseen_insert(adj.len(), seen@, s);
                }
                seen.insert(s);
                stack.push((s, 0));
                proof {
                    lemma_search_push(g, root, st0, stack@, seen0, out@, s);
                    lemma_visit_grows(adj, s, 0, seen@);
                    let (seen1, done1) = visit(adj, s, 0, seen@);
                    graph::lemma_unseen_subset(adj.len(), seen@, seen1);
                    let (seen2, done2) = visit(adj, b, (idx + 1) as nat, seen1);
                    let st1 = stack@.drop_last();
                    assert(st1.drop_last() =~= st0.drop_last());
                    assert(out@ + done1.push(s) + done2.push(b) =~= out@ + (done1.push(s) + done2).push(b));
                    assert(unwind(adj, st1, seen1, out@ + done1.push(s)) == unwind(
                        adj,
                        st1.drop_last(),
                        seen2,
                        out@ + done1.push(s) + done2.push(b),
                    ));
                }
            } else {
                proof {
                    assert(stack@.drop_last() =~= st0.drop_last());
                    assert(visit(adj, b, idx as nat, seen@) == visit(adj, b, (idx + 1) as nat, seen@));
                    assert forall|k: int| 0 <= k < stack@.len() implies (#[trigger] stack@[k]).0 == st0[k].0 by {}
                    assert forall|x: usize| on_stack(stack@, x) == on_stack(st0, x) by {
                        if on_stack(st0, x) {
                            let k = choose|k: int| 0 <= k < st0.len() && (#[trigger] st0[k]).0 == x;
                            assert(stack@[k].0 == x);
                        }
                        if on_stack(stack@, x) {
                            let k = choose|k: int| 0 <= k < st0.len() && (#[trigger] stack@[k]).0 == x;
                            assert(st0[k].0 == x);
                        }
                    }
                    assert forall|i: int| 0 <= i < out@.len() && out@[i] != root implies #[trigger] later_or_open(g, stack@, out@, i) by {
                        assert(later_or_open(g, st0, out@, i));
                        if exists|k: int| 0 <= k < st0.len() && g.edge((#[trigger] st0[k]).0, out@[i]) {
                            let k = choose|k: int| 0 <= k < st0.len() && g.edge((#[trigger] st0[k]).0, out@[i]);
                            assert(g.edge(stack@[k].0, out@[i]));
                        }
                    }
                    assert forall|j: int, k: int| 0 <= j < k < stack@.len() implies (#[trigger] stack@[j]).0 != (#[trigger] stack@[k]).0 by {
                        assert(st0[j].0 != st0[k].0);
                    }
                    assert forall|i: int, k: int| 0 <= i < out@.len() && 0 <= k < stack@.len() implies #[trigger] out@[i] != (#[trigger] stack@[k]).0 by {
                        assert(out@[i] != st0[k].0);
                    }
                    assert forall|k: int| 1 <= k < stack@.len() implies g.edge(stack@[k - 1].0, (#[trigger] stack@[k]).0) by {
                        assert(g.edge(st0[k - 1].0, st0[k].0));
                    }
                    assert forall|k: int, m: int|
                        0 <= k < stack@.len() && 0 <= m < stack@[k].1 implies seen@.contains(#[trigger] g.adj[stack@[k].0 as int][m]) by {
                        if k < top || m < idx {
                            assert(seen@.contains(g.adj[st0[k].0 as int][m]));
                        }
                    }
                    assert(search_inv(g, root, stack@, seen@, out@));
                }
            }
        } else {
            proof {
                lemma_search_pop(g, root, st0, seen@, out@);
                let (s1, d1) = visit(adj, b, idx as nat, seen@);
                assert(out@ + d1.push(b) =~= out@.push(b));
            }
            out.push(b);
            stack.pop();
        }
    }
    proof {
        assert forall|b: usize| out@.contains(b) <==> g.reaches(root, b) by {
            assert(seen@.contains(b) <==> out@.contains(b));
            if g.reaches(root, b) {
                assert forall|x: usize, y: usize| seen@.contains(x) && #[trigger] g.edge(x, y) implies seen@.contains(y) by {
                    assert(out@.contains(x));
                    let i = choose|i: int| 0 <= i < out@.len() && out@[i] == x;
                    assert(g.edge(out@[i], y));
                }
                g.lemma_closed_set(root, seen@, b);
            }
        }
        assert forall|i: int| 0 <= i < out@.len() - 1 implies has_later_pred(g, out@, i) by {
            assert(out@[i] != out@[out@.len() - 1]);
            assert(later_or_open(g, stack@, out@, i));
        }
    }
    out
}

// ---------------------------------------------------------------------------
// Iterative dominators
// ---------------------------------------------------------------------------

/// A graph with its root and the depth-first number of each reached node
/// (`usize::MAX` for the others).
struct Numbered {
    g: Graph,
    root: usize,
    num: Seq<usize>,
}

impl Numbered {
    spec fn n(self) -> nat {
        self.g.adj.len()
    }

    spec fn live(self, x: usize) -> bool {
        x < self.n() && self.num[x as int] != usize::MAX
    }

    spec fn ok(self) -> bool {
        &&& self.num.len() == self.n()
        &&& self.n() <= usize::MAX
        &&& self.root < self.n()
        &&& self.g.closed()
        &&& self.num[self.root as int] == 0
        &&& forall|x: usize| #[trigger] self.live(x) <==> self.g.reaches(self.root, x)
        &&& forall|x: usize| #[trigger] self.live(x) ==> self.num[x as int] < self.n()
        &&& forall|x: usize, y: usize|
            #[trigger] self.live(x) && #[trigger] self.live(y) && self.num[x as int]
                == self.num[y as int] ==> x == y
        &&& forall|x: usize| #[trigger] self.live(x) && x != self.root ==> self.earlier_pred(x)
    }

    spec fn earlier_pred(self, x: usize) -> bool {
        exists|y: usize|
            self.live(y) && #[trigger] self.g.edge(y, x) && self.num[y as int] < self.num[x as int]
    }

    /// `c` is met climbing from `x`.
    spec fn chain(self, idom: Seq<usize>, x: usize, c: usize) -> bool
        decreases self.num[x as int],
    {
        x == c || (x != self.root && self.num[idom[x as int] as int] < self.num[x as int]
            && self.chain(idom, idom[x as int], c))
    }

    /// A path from `q` to `x` that stays behind `q` in depth-first order.
    spec fn link(self, q: usize, x: usize) -> bool {
        exists|p: Seq<usize>| self.link_path(p, q, x)
    }

    spec fn link_path(self, p: Seq<usize>, q: usize, x: usize) -> bool {
        &&& self.g.path(p)
        &&& p[0] == q
        &&& p.last() == x
        &&& forall|i: int| 1 <= i < p.len() ==> self.num[#[trigger] p[i] as int] > self.num[q as int]
    }

    /// `c` is met climbing from each of `nodes` that has a parent.
    spec fn common(self, idom: Seq<usize>, nodes: Seq<usize>, c: usize) -> bool {
        forall|j: int| 0 <= j < nodes.len() && self.set(idom, #[trigger] nodes[j]) ==> self.chain(idom, nodes[j], c)
    }

    spec fn set(self, idom: Seq<usize>, x: usize) -> bool {
        self.live(x) && idom[x as int] != usize::MAX
    }

    spec fn parent_ok(self, idom: Seq<usize>, x: usize) -> bool {
        self.set(idom, x) ==> self.set(idom, idom[x as int]) && (x != self.root
            ==> self.num[idom[x as int] as int] < self.num[x as int] && self.link(idom[x as int], x))
    }

    /// What holds of the parent links at every moment.
    #[verifier::opaque]
    spec fn state(self, idom: Seq<usize>) -> bool {
        &&& idom.len() == self.n()
        &&& idom[self.root as int] == self.root
        &&& forall|x: int| 0 <= x < self.n() && #[trigger] idom[x] != usize::MAX ==> self.live(x as usize)
        &&& forall|x: usize| #[trigger] self.parent_ok(idom, x)
        &&& forall|x: usize, d: usize|
            #[trigger] self.set(idom, x) && #[trigger] self.g.dominates(self.root, d, x)
                ==> self.chain(idom, x, d)
    }

    proof fn lemma_parent(self, idom: Seq<usize>, x: usize)
        requires
            self.state(idom),
            self.set(idom, x),
        ensures
            idom.len() == self.n(),
            self.set(idom, idom[x as int]),
            x != self.root ==> self.num[idom[x as int] as int] < self.num[x as int] && self.link(
                idom[x as int],
                x,
            ),
    {
        reveal(Numbered::state);
        assert(self.parent_ok(idom, x));
    }

    proof fn lemma_state_dominates(self, idom: Seq<usize>, x: usize, d: usize)
        requires
            self.state(idom),
            self.set(idom, x),
            self.g.dominates(self.root, d, x),
        ensures
            self.chain(idom, x, d),
    {
        reveal(Numbered::state);
    }

    proof fn lemma_state_shape(self, idom: Seq<usize>)
        requires
            self.ok(),
            self.state(idom),
        ensures
            idom.len() == self.n(),
            self.set(idom, self.root),
            idom[self.root as int] == self.root,
            forall|x: int| 0 <= x < self.n() && #[trigger] idom[x] != usize::MAX ==> self.live(x as usize),
    {
        reveal(Numbered::state);
        self.g.lemma_reaches_self(self.root);
        assert(self.live(self.root));
    }

    proof fn lemma_chain_set(self, idom: Seq<usize>, x: usize, c: usize)
        requires
            self.ok(),
            self.state(idom),
            self.set(idom, x),
            self.chain(idom, x, c),
        ensures
            self.set(idom, c),
            self.num[c as int] <= self.num[x as int],
        decreases self.num[x as int],
    {
        if x != c {
            self.lemma_parent(idom, x);
            self.lemma_chain_set(idom, idom[x as int], c);
        }
    }

    proof fn lemma_chain_trans(self, idom: Seq<usize>, x: usize, c: usize, d: usize)
        requires
            self.chain(idom, x, c),
            self.chain(idom, c, d),
        ensures
            self.chain(idom, x, d),
        decreases self.num[x as int],
    {
        if x != c {
            self.lemma_chain_trans(idom, idom[x as int], c, d);
        }
    }

    #[verifier::rlimit(40)]
    #[verifier::spinoff_prover]
    proof fn lemma_chain_link(self, idom: Seq<usize>, x: usize, c: usize)
        requires
            self.ok(),
            self.state(idom),
            self.set(idom, x),
            self.chain(idom, x, c),
        ensures
            self.link(c, x),
        decreases self.num[x as int],
    {
        if x == c {
            let p = seq![x];
            assert(self.link_path(p, x, x));
        } else {
            let o = idom[x as int];
            self.lemma_parent(idom, x);
            self.lemma_chain_set(idom, o, c);
            self.lemma_chain_link(idom, o, c);
            let p1 = choose|p: Seq<usize>| self.link_path(p, c, o);
            let p2 = choose|p: Seq<usize>| self.link_path(p, o, x);
            let p = lemma_path_join(self.g, p1, p2);
            assert forall|i: int| 1 <= i < p.len() implies self.num[#[trigger] p[i] as int] > self.num[c as int] by {
                if i < p1.len() {
                    assert(p[i] == p1[i]);
                } else {
                    assert(p[i] == p2[i - p1.len() + 1]);
                }
            }
            assert(self.link_path(p, c, x));
        }
    }

    /// Links of nodes after `b` do not matter to chains before it.
    proof fn lemma_chain_before(self, idom: Seq<usize>, b: usize, q: usize, x: usize, c: usize)
        requires
            self.ok(),
            self.state(idom),
            self.set(idom, x),
            self.live(b),
            self.num[x as int] < self.num[b as int],
        ensures
            self.chain(idom.update(b as int, q), x, c) == self.chain(idom, x, c),
        decreases self.num[x as int],
    {
        let idom2 = idom.update(b as int, q);
        self.lemma_parent(idom, x);
        assert(x != b);
        assert(idom2[x as int] == idom[x as int]);
        if x != c && x != self.root && self.num[idom[x as int] as int] < self.num[x as int] {
            self.lemma_chain_before(idom, b, q, idom[x as int], c);
        }
    }

    /// Giving `b` the parent `q` keeps the invariant.
    #[verifier::rlimit(40)]
    #[verifier::spinoff_prover]
    proof fn lemma_relink(self, idom: Seq<usize>, b: usize, q: usize)
        requires
            self.ok(),
            self.state(idom),
            self.live(b),
            b != self.root,
            self.set(idom, q),
            self.num[q as int] < self.num[b as int],
            self.link(q, b),
            forall|d: usize| d != b && #[trigger] self.g.dominates(self.root, d, b) ==> self.chain(idom, q, d),
        ensures
            self.state(idom.update(b as int, q)),
    {
        let idom2 = idom.update(b as int, q);
        self.lemma_state_shape(idom);
        assert forall|x: usize, d: usize|
            #[trigger] self.set(idom2, x) && #[trigger] self.g.dominates(self.root, d, x)
                implies self.chain(idom2, x, d) by {
            self.lemma_relink_chain(idom, b, q, x, d);
        }
        assert forall|x: usize| #[trigger] self.parent_ok(idom2, x) by {
            if self.set(idom2, x) && x != b {
                assert(self.set(idom, x));
                self.lemma_parent(idom, x);
            }
        }
        assert forall|x: int| 0 <= x < self.n() && #[trigger] idom2[x] != usize::MAX implies self.live(x as usize) by {
            if x != b {
                assert(idom[x] != usize::MAX);
            }
        }
        reveal(Numbered::state);
    }

    #[verifier::rlimit(40)]
    #[verifier::spinoff_prover]
    proof fn lemma_relink_chain(self, idom: Seq<usize>, b: usize, q: usize, z: usize, d: usize)
        requires
            self.ok(),
            self.state(idom),
            self.live(b),
            b != self.root,
            self.set(idom, q),
            self.num[q as int] < self.num[b as int],
            forall|d: usize| d != b && #[trigger] self.g.dominates(self.root, d, b) ==> self.chain(idom, q, d),
            self.set(idom.update(b as int, q), z),
            self.g.dominates(self.root, d, z),
        ensures
            self.chain(idom.update(b as int, q), z, d),
        decreases self.num[z as int],
    {
        let idom2 = idom.update(b as int, q);
        self.lemma_state_shape(idom);
        if z == b {
            if d != b {
                assert(self.chain(idom, q, d));
                self.lemma_chain_before(idom, b, q, q, d);
                assert(idom2[z as int] == q);
                assert(self.chain(idom2, z, d));
            }
        } else {
            assert(self.set(idom, z));
            self.lemma_state_dominates(idom, z, d);
            if z != d {
                let o = idom[z as int];
                self.lemma_parent(idom, z);
                assert(self.chain(idom, o, d));
                self.lemma_chain_set(idom, o, d);
                if d != o {
                    let lp = choose|p: Seq<usize>| self.link_path(p, o, z);
                    assert forall|p: Seq<usize>|
                        #[trigger] self.g.path(p) && p[0] == self.root && p.last() == o implies p.contains(d) by {
                        let w = lemma_path_join(self.g, p, lp);
                        assert(w.contains(d));
                        let i = choose|i: int| 0 <= i < w.len() && w[i] == d;
                        if i < p.len() {
                            assert(p[i] == d);
                        } else {
                            assert(w[i] == lp[i - p.len() + 1]);
                            assert(self.num[lp[i - p.len() + 1] as int] > self.num[o as int]);
                        }
                    }
                    assert(self.g.dominates(self.root, d, o));
                    assert(self.set(idom2, o)) by {
                        if o == b {
                        } else {
                            assert(idom2[o as int] == idom[o as int]);
                        }
                    }
                    self.lemma_relink_chain(idom, b, q, o, d);
                }
                assert(self.chain(idom2, o, d));
                assert(idom2[z as int] == o);
                assert(self.chain(idom2, z, d));
            }
        }
    }

    /// Number of steps of `p` that do not go forward in depth-first order.
    spec fn retreats(self, p: Seq<usize>) -> nat
        decreases p.len(),
    {
        if p.len() < 2 {
            0
        } else {
            self.retreats(p.drop_last()) + if self.num[p[p.len() - 2] as int]
                >= self.num[p[p.len() - 1] as int] {
                1nat
            } else {
                0nat
            }
        }
    }

    proof fn lemma_retreats_prefix(self, p: Seq<usize>, k: int)
        requires
            0 <= k <= p.len(),
        ensures
            self.retreats(p.take(k)) <= self.retreats(p),
            p.len() > 0 ==> self.retreats(p) < p.len(),
        decreases p.len(),
    {
        if p.len() >= 2 {
            if k < p.len() {
                self.lemma_retreats_prefix(p.drop_last(), k);
                assert(p.drop_last().take(k) =~= p.take(k));
            } else {
                self.lemma_retreats_prefix(p.drop_last(), 0);
                assert(p.take(k) =~= p);
            }
        }
    }

    /// The parent of `x` lies on every path to `x` with fewer than `k` retreats.
    spec fn hits(self, idom: Seq<usize>, x: usize, k: nat) -> bool {
        forall|p: Seq<usize>|
            #[trigger] self.g.path(p) && p[0] == self.root && p.last() == x && self.retreats(p) < k
                ==> p.contains(idom[x as int])
    }

    #[verifier::rlimit(40)]
    #[verifier::spinoff_prover]
    proof fn lemma_chain_hits(self, idom: Seq<usize>, x: usize, c: usize, k: nat, p: Seq<usize>)
        requires
            self.ok(),
            self.state(idom),
            self.set(idom, x),
            self.chain(idom, x, c),
            forall|y: usize|
                #[trigger] self.set(idom, y) && y != self.root && self.num[y as int]
                    <= self.num[x as int] ==> self.hits(idom, y, k),
            self.g.path(p),
            p[0] == self.root,
            p.last() == x,
            self.retreats(p) < k,
        ensures
            p.contains(c),
        decreases self.num[x as int],
    {
        if x == c {
            assert(p[p.len() - 1] == c);
        } else {
            let o = idom[x as int];
            assert(self.hits(idom, x, k));
            assert(p.contains(o));
            let j = choose|j: int| 0 <= j < p.len() && p[j] == o;
            let q = p.take(j + 1);
            lemma_path_prefix(self.g, p, j + 1);
            self.lemma_retreats_prefix(p, j + 1);
            self.lemma_parent(idom, x);
            self.lemma_chain_hits(idom, o, c, k, q);
            let i = choose|i: int| 0 <= i < q.len() && q[i] == c;
            assert(p[i] == c);
        }
    }

    /// One step of a pass: the meet of the predecessor chains lies on every
    /// path to `b` with one retreat more than before.
    #[verifier::rlimit(40)]
    #[verifier::spinoff_prover]
    proof fn lemma_meet_hits(self, idom: Seq<usize>, b: usize, q: usize, k: nat)
        requires
            self.ok(),
            self.state(idom),
            self.live(b),
            b != self.root,
            forall|p: usize| #[trigger] self.set(idom, p) && self.g.edge(p, b) ==> self.chain(idom, p, q),
            forall|y: usize|
                #[trigger] self.live(y) && y != self.root && self.num[y as int]
                    < self.num[b as int] ==> self.set(idom, y) && self.hits(idom, y, (k + 1) as nat),
            k > 0 ==> forall|y: usize|
                #[trigger] self.live(y) && y != self.root ==> self.set(idom, y) && self.hits(idom, y, k),
        ensures
            self.hits(idom.update(b as int, q), b, (k + 1) as nat),
    {
        let idom2 = idom.update(b as int, q);
        assert forall|w: Seq<usize>|
            #[trigger] self.g.path(w) && w[0] == self.root && w.last() == b && self.retreats(w) < k + 1
            implies w.contains(idom2[b as int]) by {
            assert(w.len() >= 2);
            let v = w.drop_last();
            assert(v =~= w.take(w.len() - 1));
            lemma_path_prefix(self.g, w, w.len() - 1);
            let p = v.last();
            assert(self.g.edge(w[w.len() - 2], w[w.len() - 2 + 1]));
            self.g.lemma_path_reaches(v);
            assert(self.live(p));
            self.lemma_retreats_prefix(w, w.len() - 1);
            self.lemma_state_shape(idom);
            if self.num[p as int] < self.num[b as int] {
                assert(self.set(idom, p));
                self.lemma_chain_hits(idom, p, q, (k + 1) as nat, v);
            } else {
                assert(self.retreats(v) < k);
                assert(self.set(idom, p));
                self.lemma_chain_hits(idom, p, q, k, v);
            }
            let i = choose|i: int| 0 <= i < v.len() && v[i] == q;
            assert(w[i] == q);
        }
    }

    /// At a fixpoint every chain node lies on every path.
    proof fn lemma_fixed_dominates(self, idom: Seq<usize>, x: usize, c: usize, w: Seq<usize>)
        requires
            self.ok(),
            self.state(idom),
            forall|y: usize| #[trigger] self.live(y) ==> self.set(idom, y),
            forall|x: usize, p: usize|
                x != self.root && self.live(p) && #[trigger] self.g.edge(p, x) ==> self.chain(
                    idom,
                    p,
                    idom[x as int],
                ),
            self.chain(idom, x, c),
            self.g.path(w),
            w[0] == self.root,
            w.last() == x,
        ensures
            w.contains(c),
        decreases w.len(),
    {
        if x == c {
            assert(w[w.len() - 1] == c);
        } else {
            assert(w.len() >= 2);
            let v = w.drop_last();
            assert(v =~= w.take(w.len() - 1));
            lemma_path_prefix(self.g, w, w.len() - 1);
            let p = v.last();
            assert(self.g.edge(w[w.len() - 2], w[w.len() - 2 + 1]));
            self.g.lemma_path_reaches(v);
            assert(self.live(p));
            self.lemma_chain_trans(idom, p, idom[x as int], c);
            self.lemma_fixed_dominates(idom, p, c, v);
            let i = choose|i: int| 0 <= i < v.len() && v[i] == c;
            assert(w[i] == c);
        }
    }

    /// After as many passes as there are nodes every chain node lies on every path.
    proof fn lemma_hits_dominates(self, idom: Seq<usize>, x: usize, c: usize, w: Seq<usize>)
        requires
            self.ok(),
            self.state(idom),
            self.set(idom, x),
            forall|y: usize|
                #[trigger] self.live(y) && y != self.root ==> self.set(idom, y) && self.hits(idom, y, self.n()),
            self.chain(idom, x, c),
            self.g.path(w),
            w[0] == self.root,
            w.last() == x,
        ensures
            w.contains(c),
    {
        let s = self.lemma_simple(w);
        self.lemma_retreats_prefix(s, 0);
        self.lemma_chain_hits(idom, x, c, self.n(), s);
        let i = choose|i: int| 0 <= i < s.len() && s[i] == c;
        assert(w.contains(s[i]));
    }

    /// A path with the same ends that visits no node twice.
    #[verifier::rlimit(40)]
    #[verifier::spinoff_prover]
    proof fn lemma_simple(self, w: Seq<usize>) -> (s: Seq<usize>)
        requires
            self.ok(),
            self.g.path(w),
            w[0] == self.root,
        ensures
            self.g.path(s),
            s[0] == w[0],
            s.last() == w.last(),
            s.len() <= self.n(),
            forall|i: int| 0 <= i < s.len() ==> w.contains(#[trigger] s[i]),
        decreases w.len(),
    {
        if w.no_duplicates() {
            assert forall|i: int| 0 <= i < w.len() implies #[trigger] w[i] < self.n() by {
                lemma_path_prefix(self.g, w, i + 1);
                self.g.lemma_path_reaches(w.take(i + 1));
                self.g.lemma_reach_nodes(self.root, w[i]);
            }
            lemma_short(w, self.n());
            assert forall|i: int| 0 <= i < w.len() implies w.contains(#[trigger] w[i]) by {}
            w
        } else {
            let (i, j) = choose|i: int, j: int| 0 <= i < j < w.len() && w[i] == w[j];
            let v = w.take(i + 1) + w.skip(j + 1);
            assert forall|m: int| 0 <= m < v.len() - 1 implies self.g.edge(#[trigger] v[m], v[m + 1]) by {
                if m < i {
                    assert(self.g.edge(w[m], w[m + 1]));
                } else {
                    assert(v[m] == w[m + (j - i)]);
                    assert(v[m + 1] == w[m + (j - i) + 1]);
                    assert(self.g.edge(w[m + (j - i)], w[m + (j - i) + 1]));
                }
            }
            if j + 1 == w.len() {
                assert(v.last() == w[i]);
            } else {
                assert(v.last() == w.last());
            }
            let s = self.lemma_simple(v);
            assert forall|m: int| 0 <= m < s.len() implies w.contains(#[trigger] s[m]) by {
                assert(v.contains(s[m]));
                let a = choose|a: int| 0 <= a < v.len() && v[a] == s[m];
                if a <= i {
                    assert(w[a] == s[m]);
                } else {
                    assert(w[a + (j - i)] == s[m]);
                }
            }
            s
        }
    }
}

/// A sequence of distinct numbers below `n` is no longer than `n`.
proof fn lemma_short(w: Seq<usize>, n: nat)
    requires
        w.no_duplicates(),
        forall|i: int| 0 <= i < w.len() ==> #[trigger] w[i] < n,
    ensures
        w.len() <= n,
    decreases n,
{
    if w.len() > 0 {
        let m = (n - 1) as nat;
        assert(w[0] < n);
        if exists|i: int| 0 <= i < w.len() && w[i] == m {
            let i = choose|i: int| 0 <= i < w.len() && w[i] == m;
            let v = w.remove(i);
            assert forall|k: int| 0 <= k < v.len() implies #[trigger] v[k] < m by {
                if k < i {
                    assert(v[k] == w[k]);
                } else {
                    assert(v[k] == w[k + 1]);
                }
            }
            lemma_short(v, m);
        } else {
            assert forall|k: int| 0 <= k < w.len() implies #[trigger] w[k] < m by {
                assert(w[k] < n);
            }
            lemma_short(w, m);
        }
    }
}

proof fn lemma_path_join(g: Graph, p: Seq<usize>, q: Seq<usize>) -> (w: Seq<usize>)
    requires
        g.path(p),
        g.path(q),
        p.last() == q[0],
    ensures
        w == p + q.skip(1),
        g.path(w),
        w[0] == p[0],
        w.last() == q.last(),
{
    let w = p + q.skip(1);
    assert forall|i: int| 0 <= i < w.len() - 1 implies g.edge(#[trigger] w[i], w[i + 1]) by {
        if i < p.len() - 1 {
            assert(g.edge(p[i], p[i + 1]));
        } else {
            assert(w[i] == q[i - p.len() + 1]);
            assert(g.edge(q[i - p.len() + 1], q[i - p.len() + 1 + 1]));
        }
    }
    w
}

/// The nearest node common to the chains of `a` and `b`.
#[verifier::rlimit(60)]
#[verifier::spinoff_prover]
fn intersect(a: usize, b: usize, idom: &Vec<usize>, num: &Vec<usize>, Ghost(o): Ghost<Numbered>) -> (q: usize)
    requires
        o.ok(),
        o.num == num@,
        o.state(idom@),
        o.set(idom@, a),
        o.set(idom@, b),
    ensures
        o.set(idom@, q),
        o.chain(idom@, a, q),
        o.chain(idom@, b, q),
        forall|c: usize| o.chain(idom@, a, c) && o.chain(idom@, b, c) ==> #[trigger] o.chain(idom@, q, c),
{
    let mut x: usize = a;
    let mut y: usize = b;
    while x != y
        invariant
            o.ok(),
            o.num == num@,
            o.state(idom@),
            o.set(idom@, x),
            o.set(idom@, y),
            o.chain(idom@, a, x),
            o.chain(idom@, b, y),
            forall|c: usize| #![trigger o.chain(idom@, x, c)] #![trigger o.chain(idom@, y, c)]
                o.chain(idom@, a, c) && o.chain(idom@, b, c) ==> o.chain(idom@, x, c) && o.chain(idom@, y, c),
        decreases num@[x as int] + num@[y as int],
    {
        assert(o.live(x) && o.live(y));
        proof {
            o.lemma_state_shape(idom@);
        }
        if num[x] > num[y] {
            let z = idom[x];
            proof {
                o.lemma_parent(idom@, x);
                assert(o.chain(idom@, x, z)) by {
                    assert(o.chain(idom@, z, z));
                }
                o.lemma_chain_trans(idom@, a, x, z);
                assert forall|c: usize| o.chain(idom@, a, c) && o.chain(idom@, b, c) implies #[trigger] o.chain(idom@, z, c) by {
                    assert(o.chain(idom@, x, c) && o.chain(idom@, y, c));
                    o.lemma_chain_set(idom@, y, c);
                }
            }
            x = z;
        } else {
            let z = idom[y];
            proof {
                assert(num@[x as int] != num@[y as int]);
                o.lemma_parent(idom@, y);
                assert(o.chain(idom@, y, z)) by {
                    assert(o.chain(idom@, z, z));
                }
                o.lemma_chain_trans(idom@, b, y, z);
                assert forall|c: usize| o.chain(idom@, a, c) && o.chain(idom@, b, c) implies #[trigger] o.chain(idom@, z, c) by {
                    assert(o.chain(idom@, x, c) && o.chain(idom@, y, c));
                    o.lemma_chain_set(idom@, x, c);
                }
            }
            y = z;
        }
    }
    x
}

/// The nearest node common to the chains of all predecessors with a parent;
/// `usize::MAX` when there is none.
#[verifier::rlimit(60)]
#[verifier::spinoff_prover]
fn meet(preds: &Vec<usize>, idom: &Vec<usize>, num: &Vec<usize>, Ghost(o): Ghost<Numbered>) -> (q: usize)
    requires
        o.ok(),
        o.num == num@,
        o.state(idom@),
        forall|i: int| 0 <= i < preds@.len() ==> #[trigger] preds@[i] < o.n(),
    ensures
        q != usize::MAX ==> o.set(idom@, q),
        q == usize::MAX ==> forall|i: int| 0 <= i < preds@.len() ==> !o.set(idom@, #[trigger] preds@[i]),
        q != usize::MAX ==> exists|i: int| 0 <= i < preds@.len() && o.set(idom@, #[trigger] preds@[i]),
        q != usize::MAX ==> o.common(idom@, preds@, q),
        q != usize::MAX ==> forall|c: usize| #[trigger] o.common(idom@, preds@, c) ==> o.chain(idom@, q, c),
{
    let mut q: usize = usize::MAX;
    let mut i: usize = 0;
    while i < preds.len()
        invariant
            o.ok(),
            o.num == num@,
            o.state(idom@),
            i <= preds@.len(),
            forall|i: int| 0 <= i < preds@.len() ==> #[trigger] preds@[i] < o.n(),
            q != usize::MAX ==> o.set(idom@, q),
            q == usize::MAX ==> forall|j: int| 0 <= j < i ==> !o.set(idom@, #[trigger] preds@[j]),
            q != usize::MAX ==> exists|j: int| 0 <= j < i && o.set(idom@, #[trigger] preds@[j]),
            q != usize::MAX ==> o.common(idom@, preds@.take(i as int), q),
            q != usize::MAX ==> forall|c: usize| #[trigger]
                o.common(idom@, preds@.take(i as int), c) ==> o.chain(idom@, q, c),
        decreases preds@.len() - i,
    {
        let p = preds[i];
        let ghost q0 = q;
        let ghost t0 = preds@.take(i as int);
        let ghost t1 = preds@.take(i + 1);
        proof {
            o.lemma_state_shape(idom@);
            assert(t1 =~= t0.push(p));
            assert(t1[i as int] == p);
            assert forall|j: int| 0 <= j < i implies t0[j] == #[trigger] t1[j] && t0[j] == preds@[j] by {}
            assert forall|c: usize| #[trigger] o.common(idom@, t1, c) implies o.common(idom@, t0, c) && (o.set(
                idom@,
                p,
            ) ==> o.chain(idom@, p, c)) by {
                assert forall|j: int| 0 <= j < t0.len() && o.set(idom@, #[trigger] t0[j]) implies o.chain(idom@, t0[j], c) by {
                    assert(o.set(idom@, t1[j]));
                }
                if o.set(idom@, p) {
                    assert(o.set(idom@, t1[i as int]));
                }
            }
        }
        if !(num[p] == usize::MAX || idom[p] == usize::MAX) {
            assert(o.set(idom@, preds@[i as int]));
            if q == usize::MAX {
                q = p;
                proof {
                    assert(o.chain(idom@, p, p));
                    assert forall|j: int| 0 <= j < t1.len() && o.set(idom@, #[trigger] t1[j]) implies o.chain(idom@, t1[j], q) by {
                        if j < i {
                            assert(!o.set(idom@, preds@[j]));
                        }
                    }
                }
            } else {
                q = intersect(q, p, idom, num, Ghost(o));
                proof {
                    assert forall|j: int| 0 <= j < t1.len() && o.set(idom@, #[trigger] t1[j]) implies o.chain(idom@, t1[j], q) by {
                        if j < i {
                            assert(o.set(idom@, t0[j]));
                            o.lemma_chain_trans(idom@, t0[j], q0, q);
                        }
                    }
                }
            }
        } else {
            proof {
                assert(!o.set(idom@, p));
                if q != usize::MAX {
                    assert forall|j: int| 0 <= j < t1.len() && o.set(idom@, #[trigger] t1[j]) implies o.chain(idom@, t1[j], q) by {
                        assert(o.set(idom@, t0[j]));
                    }
                }
            }
        }
        i += 1;
    }
    assert(preds@.take(i as int) =~= preds@);
    q
}

/// The dominator tree of the graph with the given successor and predecessor lists.
#[verifier::rlimit(60)]
#[verifier::spinoff_prover]
pub(crate) fn dominator_tree(succ: &Vec<Vec<usize>>, pred: &Vec<Vec<usize>>, root: usize) -> (r: Vec<usize>)
    requires
        root < succ@.len(),
        pred@.len() == succ@.len(),
        (Graph { adj: lists(succ@), bar: Set::empty() }).closed(),
        forall|a: usize, b: usize|
            a < succ@.len() && b < succ@.len() ==> (#[trigger] succ@[a as int]@.contains(b) <==> #[trigger] pred@[b as int]@.contains(a)),
        forall|b: int, k: int|
            0 <= b < pred@.len() && 0 <= k < pred@[b]@.len() ==> #[trigger] pred@[b]@[k] < succ@.len(),
    ensures
        (Graph { adj: lists(succ@), bar: Set::empty() }).dom_tree(root, r@),
{
    let ghost g = Graph { adj: lists(succ@), bar: Set::empty() };
    let n = succ.len();
    let out = search(succ, root);
    let m = out.len();
    proof {
        assert forall|i: int| 0 <= i < out@.len() implies #[trigger] out@[i] < n by {
            assert(out@.contains(out@[i]));
            g.lemma_reach_nodes(root, out@[i]);
        }
        lemma_short(out@, n as nat);
    }
    let mut num: Vec<usize> = Vec::new();
    let mut idom: Vec<usize> = Vec::new();
    let mut i: usize = 0;
    while i < n
        invariant
            i <= n,
            num@.len() == i,
            idom@.len() == i,
            forall|k: int| 0 <= k < i ==> num@[k] == usize::MAX,
            forall|k: int| 0 <= k < i ==> idom@[k] == usize::MAX,
        decreases n - i,
    {
        num.push(usize::MAX);
        idom.push(usize::MAX);
        i += 1;
    }
    i = 0;
    while i < m
        invariant
            i <= m,
            m == out@.len(),
            m <= n,
            num@.len() == n,
            out@.no_duplicates(),
            forall|k: int| 0 <= k < m ==> #[trigger] out@[k] < n,
            forall|k: int| m - i <= k < m ==> num@[#[trigger] out@[k] as int] == m - 1 - k,
            forall|x: usize| x < n && #[trigger] num@[x as int] != usize::MAX ==> out@.contains(x),
        decreases m - i,
    {
        let b = out[m - 1 - i];
        let ghost num0 = num@;
        num[b] = i;
        proof {
            assert forall|x: usize| x < n && #[trigger] num@[x as int] != usize::MAX implies out@.contains(x) by {
                if x == b {
                    assert(out@[m - 1 - i] == x);
                } else {
                    assert(num0[x as int] != usize::MAX);
                }
            }
        }
        i += 1;
    }
    idom[root] = root;
    let ghost o = Numbered { g, root, num: num@ };
    proof {
        assert(num@[out@[m - 1] as int] == 0);
        assert forall|x: usize| #[trigger] o.live(x) <==> g.reaches(root, x) by {
            if g.reaches(root, x) {
                assert(out@.contains(x));
                let k = choose|k: int| 0 <= k < m && out@[k] == x;
                assert(num@[out@[k] as int] == m - 1 - k);
            }
        }
        assert forall|x: usize| #[trigger] o.live(x) implies exists|k: int| 0 <= k < m && #[trigger] out@[k] == x && num@[x as int] == m - 1 - k by {
            assert(out@.contains(x));
            let k = choose|k: int| 0 <= k < m && out@[k] == x;
            assert(num@[out@[k] as int] == m - 1 - k);
        }
        assert forall|x: usize| #[trigger] o.live(x) && x != root implies o.earlier_pred(x) by {
            let k = choose|k: int| 0 <= k < m && #[trigger] out@[k] == x && num@[x as int] == m - 1 - k;
            assert(has_later_pred(g, out@, k));
            let j = choose|j: int| k < j < out@.len() && #[trigger] g.edge(out@[j], out@[k]);
            assert(num@[out@[j] as int] == m - 1 - j);
            assert(o.live(out@[j]));
        }
        assert(o.ok());
        g.lemma_reaches_self(root);
        assert(o.live(root));
        assert forall|x: usize, d: usize|
            #[trigger] o.set(idom@, x) && #[trigger] g.dominates(root, d, x) implies o.chain(idom@, x, d) by {
            let p = seq![root];
            assert(g.path(p));
            assert(p.contains(d));
        }
        reveal(Numbered::state);
        assert(o.state(idom@));
    }
    let mut changed: bool = true;
    let mut pass: usize = 0;
    while changed && pass < n
        invariant
            n == succ@.len(),
            m == out@.len(),
            m <= n,
            pred@.len() == n,
            g == (Graph { adj: lists(succ@), bar: Set::empty() }),
            o == (Numbered { g, root, num: num@ }),
            o.ok(),
            o.state(idom@),
            pass <= n,
            finished(g, root, out@),
            out@.no_duplicates(),
            forall|k: int| 0 <= k < m ==> #[trigger] out@[k] < n && num@[out@[k] as int] == m - 1 - k,
            forall|a: usize, b: usize|
                a < succ@.len() && b < succ@.len() ==> (#[trigger] succ@[a as int]@.contains(b) <==> #[trigger] pred@[b as int]@.contains(a)),
            forall|b: int, k: int|
                0 <= b < pred@.len() && 0 <= k < pred@[b]@.len() ==> #[trigger] pred@[b]@[k] < succ@.len(),
            pass == 0 ==> changed && forall|y: usize| #[trigger] o.live(y) && y != root ==> !o.set(idom@, y),
            pass > 0 ==> forall|y: usize|
                #[trigger] o.live(y) && y != root ==> o.set(idom@, y) && o.hits(idom@, y, pass as nat),
            !changed ==> forall|x: usize, p: usize|
                x != root && o.live(p) && #[trigger] g.edge(p, x) ==> o.chain(idom@, p, idom@[x as int]),
        decreases n - pass,
    {
        changed = false;
        let mut i: usize = 0;
        let ghost idom0 = idom@;
        while i < m
            invariant
                n == succ@.len(),
                m == out@.len(),
                m <= n,
                pred@.len() == n,
                i <= m,
                g == (Graph { adj: lists(succ@), bar: Set::empty() }),
                o == (Numbered { g, root, num: num@ }),
                o.ok(),
                o.state(idom@),
                pass < n,
                finished(g, root, out@),
                out@.no_duplicates(),
                forall|k: int| 0 <= k < m ==> #[trigger] out@[k] < n && num@[out@[k] as int] == m - 1 - k,
                forall|a: usize, b: usize|
                    a < succ@.len() && b < succ@.len() ==> (#[trigger] succ@[a as int]@.contains(b) <==> #[trigger] pred@[b as int]@.contains(a)),
                forall|b: int, k: int|
                    0 <= b < pred@.len() && 0 <= k < pred@[b]@.len() ==> #[trigger] pred@[b]@[k] < succ@.len(),
                pass == 0 ==> forall|y: usize| #[trigger] o.live(y) && y != root && num@[y as int] >= i ==> !o.set(idom@, y),
                pass > 0 ==> forall|y: usize|
                    #[trigger] o.live(y) && y != root ==> o.set(idom@, y) && o.hits(idom@, y, pass as nat),
                forall|y: usize|
                    #[trigger] o.live(y) && y != root && num@[y as int] < i ==> o.set(idom@, y) && o.hits(
                        idom@,
                        y,
                        (pass + 1) as nat,
                    ),
                !changed ==> idom@ == idom0,
                !changed ==> forall|x: usize, p: usize|
                    x != root && num@[x as int] < i && o.live(p) && #[trigger] g.edge(p, x) ==> o.chain(idom@, p, idom@[x as int]),
            decreases m - i,
        {
            let b = out[m - 1 - i];
            assert(num@[b as int] == i);
            let ghost idom1 = idom@;
            if b != root {
                proof {
                    assert(o.live(b));
                    assert forall|k: int| 0 <= k < pred@[b as int]@.len() implies #[trigger] pred@[b as int]@[k] < n by {}
                    assert forall|p: usize| #[trigger] g.edge(p, b) implies pred@[b as int]@.contains(p) by {
                        assert(succ@[p as int]@.contains(b));
                    }
                    o.lemma_state_shape(idom@);
                }
                let q = meet(&pred[b], &idom, &num, Ghost(o));
                proof {
                    let y = choose|y: usize| o.live(y) && #[trigger] g.edge(y, b) && num@[y as int] < num@[b as int];
                    assert(o.earlier_pred(b));
                    assert(pred@[b as int]@.contains(y));
                    let k = choose|k: int| 0 <= k < pred@[b as int]@.len() && pred@[b as int]@[k] == y;
                    assert(o.set(idom@, pred@[b as int]@[k]));
                    assert(q != usize::MAX);
                    o.lemma_chain_set(idom@, y, q);
                    o.lemma_chain_link(idom@, y, q);
                    let lp = choose|p: Seq<usize>| o.link_path(p, q, y);
                    let w = lp.push(b);
                    assert forall|i: int| 0 <= i < w.len() - 1 implies g.edge(#[trigger] w[i], w[i + 1]) by {
                        if i < lp.len() - 1 {
                            assert(g.edge(lp[i], lp[i + 1]));
                        }
                    }
                    assert forall|i: int| 1 <= i < w.len() implies num@[#[trigger] w[i] as int] > num@[q as int] by {
                        if i < lp.len() {
                            assert(w[i] == lp[i]);
                        }
                    }
                    assert(o.link_path(w, q, b));
                    assert forall|d: usize| d != b && #[trigger] g.dominates(root, d, b) implies o.chain(idom@, q, d) by {
                        assert forall|k: int| 0 <= k < pred@[b as int]@.len() && o.set(idom@, #[trigger] pred@[b as int]@[k])
                            implies o.chain(idom@, pred@[b as int]@[k], d) by {
                            let p = pred@[b as int]@[k];
                            assert(pred@[b as int]@.contains(p));
                            assert(succ@[p as int]@.contains(b));
                            assert(g.edge(p, b));
                            lemma_dominates_pred(g, root, d, p, b);
                            o.lemma_state_dominates(idom@, p, d);
                        }
                        assert(o.common(idom@, pred@[b as int]@, d));
                    }
                    o.lemma_relink(idom@, b, q);
                    assert forall|p: usize| #[trigger] o.set(idom@, p) && g.edge(p, b) implies o.chain(idom@, p, q) by {
                        assert(pred@[b as int]@.contains(p));
                        let k = choose|k: int| 0 <= k < pred@[b as int]@.len() && pred@[b as int]@[k] == p;
                        assert(o.set(idom@, pred@[b as int]@[k]));
                    }
                    o.lemma_meet_hits(idom@, b, q, pass as nat);
                }
                if q != usize::MAX && idom[b] != q {
                    idom[b] = q;
                    changed = true;
                }
                proof {
                    assert(idom@ =~= idom1.update(b as int, q));
                    assert forall|y: usize|
                        #[trigger] o.live(y) && y != root && num@[y as int] < i + 1 implies o.set(idom@, y) && o.hits(
                        idom@,
                        y,
                        (pass + 1) as nat,
                    ) by {
                        if y != b {
                            assert(o.live(b));
                            assert(num@[y as int] < i);
                            assert(idom@[y as int] == idom1[y as int]);
                            assert(o.hits(idom1, y, (pass + 1) as nat));
                        }
                    }
                    if pass > 0 {
                        assert forall|y: usize|
                            #[trigger] o.live(y) && y != root implies o.set(idom@, y) && o.hits(idom@, y, pass as nat) by {
                            if y == b {
                                assert(o.hits(idom@, b, (pass + 1) as nat));
                            } else {
                                assert(o.hits(idom1, y, pass as nat));
                            }
                        }
                    }
                    if !changed {
                        assert(pass > 0) by {
                            if pass == 0 {
                                assert(!o.set(idom1, b));
                            }
                        }
                        assert forall|x: usize, p: usize|
                            x != root && num@[x as int] < i + 1 && o.live(p) && #[trigger] g.edge(p, x) implies o.chain(idom@, p, idom@[x as int]) by {
                            if num@[x as int] == i {
                                g.lemma_reaches_step(root, p, x);
                                assert(o.live(x) && o.live(b));
                                assert(x == b);
                                assert(o.set(idom@, p));
                            }
                        }
                    }
                }
            } else {
                proof {
                    assert forall|y: usize| #[trigger] o.live(y) && y != root && num@[y as int] < i + 1 implies num@[y as int] < i by {
                        if num@[y as int] == i {
                            g.lemma_reaches_self(root);
                            assert(o.live(root));
                        }
                    }
                    assert forall|x: usize, p: usize|
                        x != root && num@[x as int] < i + 1 && o.live(p) && #[trigger] g.edge(p, x) implies num@[x as int] < i by {
                        if num@[x as int] == i {
                            g.lemma_reaches_step(root, p, x);
                            g.lemma_reaches_self(root);
                            assert(o.live(x) && o.live(root));
                        }
                    }
                }
            }
            i += 1;
        }
        proof {
            assert forall|y: usize| #[trigger] o.live(y) implies num@[y as int] < m by {
                assert(out@.contains(y));
                let k = choose|k: int| 0 <= k < m && out@[k] == y;
                assert(num@[out@[k] as int] == m - 1 - k);
            }
            if !changed {
                assert forall|x: usize, p: usize|
                    x != root && o.live(p) && #[trigger] g.edge(p, x) implies o.chain(idom@, p, idom@[x as int]) by {
                    g.lemma_reaches_step(root, p, x);
                    assert(o.live(x));
                }
            }
        }
        pass += 1;
    }
    let ghost tree = idom@;
    proof {
        o.lemma_state_shape(tree);
        assert forall|x: usize, c: usize| o.set(tree, x) && #[trigger] o.chain(tree, x, c) implies g.dominates(root, c, x) by {
            assert forall|w: Seq<usize>| #[trigger] g.path(w) && w[0] == root && w.last() == x implies w.contains(c) by {
                g.lemma_reaches_self(root);
                assert(o.live(root));
                if !changed {
                    assert forall|y: usize| #[trigger] o.live(y) implies o.set(tree, y) by {}
                    o.lemma_fixed_dominates(tree, x, c, w);
                } else {
                    o.lemma_hits_dominates(tree, x, c, w);
                }
            }
        }
        assert forall|b: usize| #[trigger] o.live(b) && b != root implies g.immediate(root, tree[b as int], b) by {
            assert(o.set(tree, b));
            let d = tree[b as int];
            o.lemma_parent(tree, b);
            assert(o.live(d));
            assert(o.chain(tree, d, d));
            assert(o.chain(tree, b, d));
            assert forall|a: usize| a != b && #[trigger] g.dominates(root, a, b) implies g.dominates(root, a, d) by {
                o.lemma_state_dominates(tree, b, a);
                assert(o.chain(tree, d, a));
            }
        }
    }
    i = 0;
    while i < n
        invariant
            i <= n,
            idom@.len() == n,
            tree.len() == n,
            forall|k: int| i <= k < n ==> idom@[k] == tree[k],
            forall|k: int| 0 <= k < i ==> #[trigger] idom@[k] == (if tree[k] == usize::MAX { k as usize } else { tree[k] }),
        decreases n - i,
    {
        if idom[i] == usize::MAX {
            idom[i] = i;
        }
        i += 1;
    }
    proof {
        let rank = Seq::new(n as nat, |b: int| if num@[b] == usize::MAX { 0nat } else { num@[b] as nat });
        g.lemma_reaches_self(root);
        assert(o.live(root));
        assert forall|b: int| 0 <= b < n implies #[trigger] rank[b] < n by {
            if num@[b] != usize::MAX {
                assert(o.live(b as usize));
            }
        }
        assert forall|b: int| 0 <= b < n && idom@[b] != b implies rank[idom@[b] as int] < #[trigger] rank[b] by {
            assert(o.set(tree, b as usize));
            o.lemma_parent(tree, b as usize);
        }
        assert forall|b: int| 0 <= b < n implies #[trigger] idom@[b] < n by {
            if tree[b] != usize::MAX {
                assert(o.set(tree, b as usize));
                o.lemma_parent(tree, b as usize);
            }
        }
        assert(ranked(idom@, rank));
        assert forall|b: usize| b < n && (b == root || !g.reaches(root, b)) implies #[trigger] idom@[b as int] == b by {
            if b != root {
                assert(!o.live(b));
                assert(tree[b as int] == usize::MAX);
            }
        }
        assert forall|b: usize| b < n && b != root && #[trigger] g.reaches(root, b) implies g.immediate(root, idom@[b as int], b) by {
            assert(o.live(b));
        }
    }
    idom
}

proof fn lemma_dominates_pred(g: Graph, root: usize, d: usize, p: usize, b: usize)
    requires
        g.dominates(root, d, b),
        d != b,
        g.edge(p, b),
    ensures
        g.dominates(root, d, p),
{
    assert forall|w: Seq<usize>| #[trigger] g.path(w) && w[0] == root && w.last() == p implies w.contains(d) by {
        let v = w.push(b);
        assert forall|i: int| 0 <= i < v.len() - 1 implies g.edge(#[trigger] v[i], v[i + 1]) by {
            if i < w.len() - 1 {
                assert(g.edge(w[i], w[i + 1]));
            }
        }
        assert(g.path(v));
        assert(v.contains(d));
        let i = choose|i: int| 0 <= i < v.len() && v[i] == d;
        assert(w[i] == d);
    }
}

// ---------------------------------------------------------------------------
// Dominators of a flow graph
// ---------------------------------------------------------------------------

/// The successor lists with everything outside `universe` dropped.
fn lists_within(cfg: &Cfg, universe: &HashSet<usize>) -> (r: Vec<Vec<usize>>)
    requires
        cfg.wf(),
    ensures
        r@.len() == cfg.n(),
        lists(r@) == cfg.adj_within(universe@),
        (Graph { adj: lists(r@), bar: Set::empty() }).closed(),
        forall|a: usize, b: usize|
            #[trigger] (Graph { adj: lists(r@), bar: Set::empty() }).edge(a, b) == cfg.within(universe@).edge(a, b),
{
    let mut r: Vec<Vec<usize>> = Vec::new();
    let mut i: usize = 0;
    while i < cfg.blocks.len()
        invariant
            i <= cfg.n(),
            r@.len() == i,
            forall|k: int| 0 <= k < i ==> #[trigger] r@[k]@ == cfg.adj_within(universe@)[k],
        decreases cfg.n() - i,
    {
        r.push(postdom::keep_in(&cfg.blocks[i].succ, universe));
        i += 1;
    }
    proof {
        assert(lists(r@) =~= cfg.adj_within(universe@));
        let g = Graph { adj: lists(r@), bar: Set::empty() };
        let h = cfg.within(universe@);
        let f = |x: usize| universe@.contains(x);
        assert forall|a: usize, b: usize| #[trigger] g.edge(a, b) == h.edge(a, b) by {
            if a < cfg.n() {
                postdom::lemma_filter_members(cfg.blocks@[a as int].succ@, f);
                assert(g.adj[a as int] == cfg.blocks@[a as int].succ@.filter(f));
            }
        }
        assert forall|a: int, k: int| 0 <= a < g.adj.len() && 0 <= k < g.adj[a].len() implies #[trigger] g.adj[a][k] < g.adj.len() by {
            postdom::lemma_filter_members(cfg.blocks@[a].succ@, f);
            let y = g.adj[a][k];
            assert(cfg.blocks@[a].succ@.filter(f).contains(y));
            let j = choose|j: int| 0 <= j < cfg.blocks@[a].succ@.len() && cfg.blocks@[a].succ@[j] == y;
            assert(cfg.blocks@[a].succ@[j] < cfg.n());
        }
    }
    r
}

/// Each block of the universe reached from the entry is listed exactly once,
/// the entry first, and every other block after one of its predecessors.
pub open spec fn search_order(g: Graph, entry: usize, r: Seq<usize>) -> bool {
    &&& r.len() > 0
    &&& r[0] == entry
    &&& r.no_duplicates()
    &&& forall|b: usize| #[trigger] r.contains(b) <==> g.reaches(entry, b)
    &&& forall|i: int| 0 < i < r.len() ==> #[trigger] after_pred(g, r, i)
}

pub open spec fn after_pred(g: Graph, r: Seq<usize>, i: int) -> bool {
    exists|j: int| 0 <= j < i && #[trigger] g.edge(r[j], r[i])
}

/// Reverse depth-first finishing order of the blocks of `universe` reached
/// from `entry`, taking successors in list order.
pub fn reverse_postorder(cfg: &Cfg, entry: usize, universe: &HashSet<usize>) -> (r: Vec<usize>)
    requires
        cfg.wf(),
        universe@.contains(entry) ==> entry < cfg.n(),
    ensures
        r@ == (if universe@.contains(entry) {
            postorder(cfg.adj_within(universe@), entry).reverse()
        } else {
            Seq::<usize>::empty()
        }),
        universe@.contains(entry) ==> search_order(cfg.within(universe@), entry, r@),
{
    let mut r: Vec<usize> = Vec::new();
    if !universe.contains(&entry) {
        return r;
    }
    let succ = lists_within(cfg, universe);
    let out = search(&succ, entry);
    let mut i: usize = out.len();
    while i > 0
        invariant
            i <= out@.len(),
            r@.len() == out@.len() - i,
            forall|k: int| 0 <= k < r@.len() ==> r@[k] == out@[out@.len() - 1 - k],
        decreases i,
    {
        i -= 1;
        r.push(out[i]);
    }
    assert(r@ =~= out@.reverse());
    proof {
        let g = Graph { adj: lists(succ@), bar: Set::empty() };
        let h = cfg.within(universe@);
        g.lemma_same_edges(h);
        assert forall|b: usize| #[trigger] r@.contains(b) <==> h.reaches(entry, b) by {
            assert(g.reaches(entry, b) == h.reaches(entry, b));
            if r@.contains(b) {
                let i = choose|i: int| 0 <= i < r@.len() && r@[i] == b;
                assert(out@[out@.len() - 1 - i] == b);
            }
            if out@.contains(b) {
                let i = choose|i: int| 0 <= i < out@.len() && out@[i] == b;
                assert(r@[out@.len() - 1 - i] == b);
            }
        }
        assert forall|i: int| 0 < i < r@.len() implies #[trigger] after_pred(h, r@, i) by {
            let k = out@.len() - 1 - i;
            assert(has_later_pred(g, out@, k));
            let m = choose|m: int| k < m < out@.len() && #[trigger] g.edge(out@[m], out@[k]);
            let j = out@.len() - 1 - m;
            assert(r@[j] == out@[m]);
            assert(h.edge(r@[j], r@[i]));
        }
    }
    r
}

/// The blocks that dominate each block of `universe` on the way from `entry`,
/// as a tree; blocks that the entry does not reach are their own parents.
pub fn compute_dominators(cfg: &Cfg, universe: &HashSet<usize>, entry: usize) -> (r: DomInfo)
    requires
        cfg.wf(),
        universe@.contains(entry) ==> entry < cfg.n(),
    ensures
        r.idom@.len() == cfg.n(),
        r.wf(),
        universe@.contains(entry) ==> cfg.within(universe@).dom_tree(entry, r.idom@),
        !universe@.contains(entry) ==> forall|b: usize| b < cfg.n() ==> #[trigger] r.idom@[b as int] == b,
        universe@.contains(entry) ==> r.idom@ == dom_of(*cfg, universe@, entry),
{
    if !universe.contains(&entry) {
        let mut idom: Vec<usize> = Vec::new();
        let mut i: usize = 0;
        while i < cfg.blocks.len()
            invariant
                i <= cfg.n(),
                idom@.len() == i,
                forall|k: int| 0 <= k < i ==> #[trigger] idom@[k] == k,
            decreases cfg.n() - i,
        {
            idom.push(i);
            i += 1;
        }
        return DomInfo { idom };
    }
    let succ = lists_within(cfg, universe);
    let mut pred: Vec<Vec<usize>> = Vec::new();
    let mut i: usize = 0;
    while i < cfg.blocks.len()
        invariant
            i <= cfg.n(),
            pred@.len() == i,
            forall|k: int|
                0 <= k < i ==> #[trigger] pred@[k]@ == (if universe@.contains(k as usize) {
                    cfg.blocks@[k].pred@
                } else {
                    Seq::empty()
                }),
        decreases cfg.n() - i,
    {
        if universe.contains(&i) {
            pred.push(copy_list(&cfg.blocks[i].pred));
        } else {
            pred.push(Vec::new());
        }
        i += 1;
    }
    let ghost g = Graph { adj: lists(succ@), bar: Set::empty() };
    proof {
        assert forall|a: usize, b: usize| a < succ@.len() && b < succ@.len() implies (#[trigger] succ@[a as int]@.contains(b) <==> #[trigger] pred@[b as int]@.contains(a)) by {
            assert(g.edge(a, b) == cfg.within(universe@).edge(a, b));
            assert(g.adj[a as int] == succ@[a as int]@);
            assert(cfg.blocks@[a as int].succ@.contains(b) <==> cfg.blocks@[b as int].pred@.contains(a));
        }
    }
    let idom = dominator_tree(&succ, &pred, entry);
    proof {
        let h = cfg.within(universe@);
        g.lemma_same_edges(h);
        assert forall|a: usize, b: usize| #[trigger] g.dominates(entry, a, b) == h.dominates(entry, a, b) by {
            if g.dominates(entry, a, b) {
                assert forall|p: Seq<usize>| #[trigger] h.path(p) && p[0] == entry && p.last() == b implies p.contains(a) by {
                    assert(g.path(p));
                }
            }
            if h.dominates(entry, a, b) {
                assert forall|p: Seq<usize>| #[trigger] g.path(p) && p[0] == entry && p.last() == b implies p.contains(a) by {
                    assert(h.path(p));
                }
            }
        }
        assert forall|b: usize| b < idom@.len() && b != entry && #[trigger] h.reaches(entry, b) implies h.immediate(entry, idom@[b as int], b) by {
            assert(g.reaches(entry, b));
            let d = idom@[b as int];
            assert(g.immediate(entry, d, b));
            assert forall|a: usize| a != b && #[trigger] h.dominates(entry, a, b) implies h.dominates(entry, a, d) by {
                assert(g.dominates(entry, a, b));
                assert(g.dominates(entry, a, d));
            }
            assert(g.dominates(entry, d, b));
            assert(g.reaches(entry, d));
        }
        assert forall|b: usize| b < idom@.len() && (b == entry || !h.reaches(entry, b)) implies #[trigger] idom@[b as int] == b by {
            assert(g.reaches(entry, b) == h.reaches(entry, b));
        }
    }
    proof {
        lemma_dom_of(*cfg, universe@, entry, idom@);
    }
    DomInfo { idom }
}

/// The dominator tree of the blocks of `universe` that `entry` reaches.
pub open spec fn dom_of(cfg: Cfg, universe: Set<usize>, entry: usize) -> Seq<usize> {
    choose|idom: Seq<usize>| #[trigger] cfg.within(universe).dom_tree(entry, idom)
}

/// Two blocks that dominate each other are one.
proof fn lemma_dominates_antisymmetric(g: Graph, root: usize, a: usize, b: usize, p: Seq<usize>)
    requires
        g.dominates(root, a, b),
        g.dominates(root, b, a),
        g.path(p),
        p[0] == root,
        p.last() == a,
    ensures
        a == b,
    decreases p.len(),
{
    if a != b {
        assert(p.contains(b));
        let j = choose|j: int| 0 <= j < p.len() && p[j] == b;
        let q = p.take(j + 1);
        lemma_path_prefix(g, p, j + 1);
        assert(q.last() == b);
        assert(q.contains(a));
        let i = choose|i: int| 0 <= i < q.len() && q[i] == a;
        let r = p.take(i + 1);
        lemma_path_prefix(g, p, i + 1);
        assert(r.last() == a);
        assert(p[p.len() - 1] == a && p[j] == b);
        lemma_dominates_antisymmetric(g, root, a, b, r);
    }
}

/// The dominator tree is determined.
pub proof fn law_dom_tree_unique(g: Graph, root: usize, x: Seq<usize>, y: Seq<usize>)
    requires
        g.dom_tree(root, x),
        g.dom_tree(root, y),
        g.adj.len() <= usize::MAX,
    ensures
        x == y,
{
    assert forall|b: int| 0 <= b < x.len() implies x[b] == y[b] by {
        let c = b as usize;
        if c == root || !g.reaches(root, c) {
            assert(x[c as int] == c && y[c as int] == c);
        } else {
            let d = x[c as int];
            let e = y[c as int];
            assert(g.immediate(root, d, c));
            assert(g.immediate(root, e, c));
            assert(g.dominates(root, d, e));
            assert(g.dominates(root, e, d));
            let p = g.lemma_reaches_path(root, d);
            lemma_dominates_antisymmetric(g, root, d, e, p);
        }
    }
    assert(x =~= y);
}

proof fn lemma_dom_of(cfg: Cfg, universe: Set<usize>, entry: usize, idom: Seq<usize>)
    requires
        cfg.within(universe).dom_tree(entry, idom),
        cfg.n() <= usize::MAX,
    ensures
        idom == dom_of(cfg, universe, entry),
{
    law_dom_tree_unique(cfg.within(universe), entry, idom, dom_of(cfg, universe, entry));
}

} // verus!
