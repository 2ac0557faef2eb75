//! Reachability over successor lists.

use std::collections::HashSet;

use vstd::prelude::*;

use crate::cfg::Cfg;
use crate::structure::dominators;

verus! {

broadcast use vstd::std_specs::hash::group_hash_axioms;

/// A directed graph on block ids: successor lists, and the nodes no step may enter.
pub struct Graph {
    pub adj: Seq<Seq<usize>>,
    pub bar: Set<usize>,
}

impl Graph {
    /// One step leads from `a` to `b`.
    pub open spec fn edge(self, a: usize, b: usize) -> bool {
        a < self.adj.len() && self.adj[a as int].contains(b) && !self.bar.contains(b)
    }

    /// Every listed successor is a node.
    pub open spec fn closed(self) -> bool {
        forall|a: int, k: int|
            0 <= a < self.adj.len() && 0 <= k < self.adj[a].len() ==> #[trigger] self.adj[a][k]
                < self.adj.len()
    }

    /// The nodes at most `k` steps away from `from`.
    pub open spec fn ball(self, from: usize, k: nat) -> Set<usize>
        decreases k,
    {
        if k == 0 {
            Set::empty().insert(from)
        } else {
            let inner = self.ball(from, (k - 1) as nat);
            Set::new(
                |y: usize|
                    inner.contains(y) || exists|x: usize| #[trigger]
                        inner.contains(x) && self.edge(x, y),
            )
        }
    }

    /// Some number of steps leads from `from` to `to`.
    pub open spec fn reaches(self, from: usize, to: usize) -> bool {
        exists|k: nat| #[trigger] self.ball(from, k).contains(to)
    }

    /// All nodes some number of steps away from `from`.
    pub open spec fn reach(self, from: usize) -> Set<usize> {
        Set::new(|b: usize| self.reaches(from, b))
    }

    /// The number of steps from `from` to `to` on a shortest way.
    pub open spec fn dist(self, from: usize, to: usize) -> Option<nat> {
        if self.reaches(from, to) {
            Some(choose|k: nat| self.at_dist(from, to, k))
        } else {
            None
        }
    }

    pub open spec fn at_dist(self, from: usize, to: usize, k: nat) -> bool {
        self.ball(from, k).contains(to) && (k > 0 ==> !self.ball(from, (k - 1) as nat).contains(to))
    }

    /// `p` is a walk along edges.
    pub open spec fn path(self, p: Seq<usize>) -> bool {
        p.len() > 0 && forall|i: int|
            0 <= i < p.len() - 1 ==> self.edge(#[trigger] p[i], p[i + 1])
    }

    pub proof fn lemma_ball_grows(self, from: usize, j: nat, k: nat, x: usize)
        requires
            j <= k,
            self.ball(from, j).contains(x),
        ensures
            self.ball(from, k).contains(x),
        decreases k,
    {
        if j < k {
            self.lemma_ball_grows(from, j, (k - 1) as nat, x);
        }
    }

    pub proof fn lemma_reaches_self(self, from: usize)
        ensures
            self.reaches(from, from),
    {
        assert(self.ball(from, 0).contains(from));
    }

    pub proof fn lemma_reaches_step(self, from: usize, x: usize, y: usize)
        requires
            self.reaches(from, x),
            self.edge(x, y),
        ensures
            self.reaches(from, y),
    {
        let k = choose|k: nat| #[trigger] self.ball(from, k).contains(x);
        assert(self.ball(from, (k + 1) as nat).contains(y));
    }

    /// A set that holds `from` and every step out of it holds all that is reached.
    pub proof fn lemma_closed_set(self, from: usize, s: Set<usize>, to: usize)
        requires
            s.contains(from),
            forall|x: usize, y: usize| s.contains(x) && #[trigger] self.edge(x, y) ==> s.contains(y),
            self.reaches(from, to),
        ensures
            s.contains(to),
    {
        let k = choose|k: nat| #[trigger] self.ball(from, k).contains(to);
        self.lemma_closed_ball(from, s, k, to);
    }

    proof fn lemma_closed_ball(self, from: usize, s: Set<usize>, k: nat, y: usize)
        requires
            s.contains(from),
            forall|x: usize, y: usize| s.contains(x) && #[trigger] self.edge(x, y) ==> s.contains(y),
            self.ball(from, k).contains(y),
        ensures
            s.contains(y),
        decreases k,
    {
        if k > 0 {
            let inner = self.ball(from, (k - 1) as nat);
            if inner.contains(y) {
                self.lemma_closed_ball(from, s, (k - 1) as nat, y);
            } else {
                let x = choose|x: usize| #[trigger] inner.contains(x) && self.edge(x, y);
                self.lemma_closed_ball(from, s, (k - 1) as nat, x);
            }
        }
    }

    /// A way of steps is the same as a path.
    pub proof fn lemma_path_reaches(self, p: Seq<usize>)
        requires
            self.path(p),
        ensures
            self.reaches(p[0], p.last()),
        decreases p.len(),
    {
        if p.len() == 1 {
            self.lemma_reaches_self(p[0]);
        } else {
            let q = p.drop_last();
            assert forall|i: int| 0 <= i < q.len() - 1 implies self.edge(#[trigger] q[i], q[i + 1]) by {
                assert(self.edge(p[i], p[i + 1]));
            }
            self.lemma_path_reaches(q);
            assert(self.edge(p[p.len() - 2], p[p.len() - 2 + 1]));
            self.lemma_reaches_step(p[0], q.last(), p.last());
        }
    }

    pub proof fn lemma_reaches_path(self, from: usize, to: usize) -> (p: Seq<usize>)
        requires
            self.reaches(from, to),
        ensures
            self.path(p),
            p[0] == from,
            p.last() == to,
    {
        let k = choose|k: nat| #[trigger] self.ball(from, k).contains(to);
        self.lemma_ball_path(from, to, k)
    }

    proof fn lemma_ball_path(self, from: usize, to: usize, k: nat) -> (p: Seq<usize>)
        requires
            self.ball(from, k).contains(to),
        ensures
            self.path(p),
            p[0] == from,
            p.last() == to,
        decreases k,
    {
        if k == 0 {
            seq![from]
        } else {
            let inner = self.ball(from, (k - 1) as nat);
            if inner.contains(to) {
                self.lemma_ball_path(from, to, (k - 1) as nat)
            } else {
                let x = choose|x: usize| #[trigger] inner.contains(x) && self.edge(x, to);
                let q = self.lemma_ball_path(from, x, (k - 1) as nat);
                let p = q.push(to);
                assert forall|i: int| 0 <= i < p.len() - 1 implies self.edge(#[trigger] p[i], p[i + 1]) by {
                    if i < q.len() - 1 {
                        assert(self.edge(q[i], q[i + 1]));
                    }
                }
                p
            }
        }
    }

    /// Everything reached from a node is a node.
    pub proof fn lemma_reach_nodes(self, from: usize, to: usize)
        requires
            self.closed(),
            from < self.adj.len(),
            self.reaches(from, to),
        ensures
            to < self.adj.len(),
    {
        let s = Set::new(|x: usize| x < self.adj.len());
        assert forall|x: usize, y: usize| s.contains(x) && #[trigger] self.edge(x, y) implies s.contains(y) by {
            let k = choose|k: int| 0 <= k < self.adj[x as int].len() && self.adj[x as int][k] == y;
            assert(self.adj[x as int][k] < self.adj.len());
        }
        self.lemma_closed_set(from, s, to);
    }

    /// Only the edges matter.
    pub proof fn lemma_same_edges(self, o: Graph)
        requires
            forall|a: usize, b: usize| #[trigger] self.edge(a, b) == o.edge(a, b),
        ensures
            forall|p: Seq<usize>| #[trigger] self.path(p) == o.path(p),
            forall|from: usize, to: usize| #[trigger] self.reaches(from, to) == o.reaches(from, to),
    {
        assert forall|p: Seq<usize>| #[trigger] self.path(p) == o.path(p) by {
            if self.path(p) {
                assert forall|i: int| 0 <= i < p.len() - 1 implies o.edge(#[trigger] p[i], p[i + 1]) by {
                    assert(self.edge(p[i], p[i + 1]));
                }
            }
            if o.path(p) {
                assert forall|i: int| 0 <= i < p.len() - 1 implies self.edge(#[trigger] p[i], p[i + 1]) by {
                    assert(o.edge(p[i], p[i + 1]));
                }
            }
        }
        assert forall|from: usize, to: usize| #[trigger] self.reaches(from, to) == o.reaches(from, to) by {
            if self.reaches(from, to) {
                let p = self.lemma_reaches_path(from, to);
                assert(o.path(p));
                o.lemma_path_reaches(p);
            }
            if o.reaches(from, to) {
                let p = o.lemma_reaches_path(from, to);
                assert(self.path(p));
                self.lemma_path_reaches(p);
            }
        }
    }

    pub proof fn lemma_dist(self, from: usize, to: usize, k: nat)
        requires
            self.at_dist(from, to, k),
        ensures
            self.dist(from, to) == Some(k),
    {
        assert(self.reaches(from, to));
        let j = choose|j: nat| self.at_dist(from, to, j);
        if j < k {
            self.lemma_ball_grows(from, j, (k - 1) as nat, to);
        }
        if k < j {
            self.lemma_ball_grows(from, k, (j - 1) as nat, to);
        }
    }
}

impl Cfg {
    /// Normal flow that never enters `bar`.
    pub open spec fn flow(self, bar: Set<usize>) -> Graph {
        Graph { adj: self.adj(), bar }
    }

    /// Normal flow inside `universe`.
    pub open spec fn within(self, universe: Set<usize>) -> Graph {
        self.flow(universe.complement())
    }

    /// The successor lists with everything outside `universe` dropped.
    pub open spec fn adj_within(self, universe: Set<usize>) -> Seq<Seq<usize>> {
        Seq::new(self.n(), |i: int| self.blocks@[i].succ@.filter(|x: usize| universe.contains(x)))
    }

    /// `to` is `from`, or a successor of a block reached from `from` without
    /// entering `bar`.
    pub open spec fn bypasses(self, from: usize, to: usize, bar: Set<usize>) -> bool {
        from == to || exists|x: usize| #[trigger]
            self.flow(bar).reaches(from, x) && self.succ(x).contains(to)
    }

    pub proof fn lemma_flow_closed(self, bar: Set<usize>)
        requires
            self.wf(),
        ensures
            self.flow(bar).closed(),
    {
        let g = self.flow(bar);
        assert forall|a: int, k: int|
            0 <= a < g.adj.len() && 0 <= k < g.adj[a].len() implies #[trigger] g.adj[a][k]
            < g.adj.len() by {
            assert(self.blocks@[a].succ@[k] < self.n());
        }
    }
}

/// Number of ids below `n` outside `s`.
pub open spec fn unseen(n: nat, s: Set<usize>) -> nat
    decreases n,
{
    if n == 0 {
        0
    } else {
        unseen((n - 1) as nat, s) + if s.contains((n - 1) as usize) {
            0nat
        } else {
            1nat
        }
    }
}

pub(crate) proof fn lemma_unseen_all(n: nat)
    ensures
        unseen(n, Set::empty()) == n,
    decreases n,
{
    if n > 0 {
        lemma_unseen_all((n - 1) as nat);
    }
}

pub proof fn lemma_unseen_insert(n: nat, s: Set<usize>, x: usize)
    requires
        n <= usize::MAX + 1,
        !s.contains(x),
    ensures
        unseen(n, s.insert(x)) == unseen(n, s) - if x < n {
            1int
        } else {
            0int
        },
    decreases n,
{
    if n > 0 {
        lemma_unseen_insert((n - 1) as nat, s, x);
    }
}

pub proof fn lemma_unseen_subset(n: nat, s: Set<usize>, t: Set<usize>)
    requires
        s.subset_of(t),
    ensures
        unseen(n, t) <= unseen(n, s),
    decreases n,
{
    if n > 0 {
        lemma_unseen_subset((n - 1) as nat, s, t);
    }
}

/// Blocks normally reachable from `entry` without entering `stop`.
pub fn reachable_within(cfg: &Cfg, entry: usize, stop: &HashSet<usize>) -> (r: HashSet<usize>)
    requires
        cfg.wf(),
        entry < cfg.n(),
    ensures
        r@ == (if stop@.contains(entry) {
            Set::<usize>::empty()
        } else {
            cfg.flow(stop@).reach(entry)
        }),
        forall|b: usize| #[trigger] r@.contains(b) ==> b < cfg.n(),
{
    if stop.contains(&entry) {
        return HashSet::new();
    }
    flood(cfg, entry, stop)
}

/// All blocks reached from `entry` by steps that never enter `stop`; `entry`
/// itself always counts.
pub(crate) fn flood(cfg: &Cfg, entry: usize, stop: &HashSet<usize>) -> (r: HashSet<usize>)
    requires
        cfg.wf(),
        entry < cfg.n(),
    ensures
        r@ == cfg.flow(stop@).reach(entry),
        forall|b: usize| #[trigger] r@.contains(b) ==> b < cfg.n(),
{
    let mut seen: HashSet<usize> = HashSet::new();
    let ghost g = cfg.flow(stop@);
    let mut q: Vec<usize> = Vec::new();
    q.push(entry);
    seen.insert(entry);
    let n: usize = cfg.blocks.len();
    proof {
        g.lemma_reaches_self(entry);
        assert(q@[0] == entry);
    }
    while q.len() > 0
        invariant
            cfg.wf(),
            n == cfg.n(),
            entry < cfg.n(),
            g == cfg.flow(stop@),
            seen@.contains(entry),
            forall|b: usize| seen@.contains(b) ==> b < cfg.n() && g.reaches(entry, b),
            forall|i: int| 0 <= i < q@.len() ==> #[trigger] seen@.contains(q@[i]),
            forall|x: usize, y: usize|
                seen@.contains(x) && !q@.contains(x) && #[trigger] g.edge(x, y) ==> seen@.contains(y),
        decreases unseen(cfg.n(), seen@), q.len(),
    {
        let ghost q0 = q@;
        let ghost s0 = seen@;
        let b = q.pop().unwrap();
        assert(seen@.contains(q0[q0.len() - 1]));
        assert forall|x: usize| x != b && q0.contains(x) implies q@.contains(x) by {
            let j = choose|j: int| 0 <= j < q0.len() && q0[j] == x;
            assert(q@[j] == x);
        }
        let mut i: usize = 0;
        while i < cfg.blocks[b].succ.len()
            invariant
                cfg.wf(),
                n == cfg.n(),
                entry < cfg.n(),
                g == cfg.flow(stop@),
                b < cfg.n(),
                i <= cfg.blocks@[b as int].succ@.len(),
                g.reaches(entry, b),
                seen@.contains(entry),
                seen@.contains(b),
                s0.subset_of(seen@),
                unseen(cfg.n(), seen@) < unseen(cfg.n(), s0) || (seen@ == s0 && q.len() < q0.len()),
                forall|b: usize| seen@.contains(b) ==> b < cfg.n() && g.reaches(entry, b),
                forall|i: int| 0 <= i < q@.len() ==> #[trigger] seen@.contains(q@[i]),
                forall|x: usize, y: usize|
                    x != b && seen@.contains(x) && !q@.contains(x) && #[trigger] g.edge(x, y)
                        ==> seen@.contains(y),
                forall|k: int|
                    0 <= k < i ==> stop@.contains(#[trigger] cfg.blocks@[b as int].succ@[k])
                        || seen@.contains(cfg.blocks@[b as int].succ@[k]),
            decreases cfg.blocks@[b as int].succ@.len() - i,
        {
            let s = cfg.blocks[b].succ[i];
            assert(s < cfg.n());
            if !stop.contains(&s) && !seen.contains(&s) {
                proof {
                    assert(g.adj[b as int].contains(s));
                    g.lemma_reaches_step(entry, b, s);
                    lemma_unseen_insert(cfg.n(), seen@, s);
                    lemma_unseen_subset(cfg.n(), s0, seen@);
                }
                let ghost q1 = q@;
                seen.insert(s);
                q.push(s);
                assert(q@[q1.len() as int] == s);
                assert forall|x: usize| q1.contains(x) implies q@.contains(x) by {
                    let j = choose|j: int| 0 <= j < q1.len() && q1[j] == x;
                    assert(q@[j] == x);
                }
            }
            i += 1;
        }
        assert forall|x: usize, y: usize|
            seen@.contains(x) && !q@.contains(x) && #[trigger] g.edge(x, y) implies seen@.contains(y) by {
            if x == b {
                let k = choose|k: int| 0 <= k < g.adj[x as int].len() && g.adj[x as int][k] == y;
                assert(cfg.blocks@[b as int].succ@[k] == y);
            }
        }
    }
    assert forall|b: usize| g.reaches(entry, b) implies seen@.contains(b) by {
        g.lemma_closed_set(entry, seen@, b);
    }
    assert(seen@ =~= g.reach(entry));
    seen
}

/// `flood` over successor lists.
pub(crate) fn flood_lists(adj: &Vec<Vec<usize>>, entry: usize, stop: &HashSet<usize>) -> (r: HashSet<usize>)
    requires
        (Graph { adj: dominators::lists(adj@), bar: stop@ }).closed(),
        entry < adj@.len(),
    ensures
        r@ == (Graph { adj: dominators::lists(adj@), bar: stop@ }).reach(entry),
        forall|b: usize| #[trigger] r@.contains(b) ==> b < adj@.len(),
{
    let mut seen: HashSet<usize> = HashSet::new();
    let ghost g = Graph { adj: dominators::lists(adj@), bar: stop@ };
    let mut q: Vec<usize> = Vec::new();
    q.push(entry);
    seen.insert(entry);
    let n: usize = adj.len();
    proof {
        g.lemma_reaches_self(entry);
        assert(q@[0] == entry);
    }
    while q.len() > 0
        invariant
            g.closed(),
            n == adj@.len(),
            entry < adj@.len(),
            g == (Graph { adj: dominators::lists(adj@), bar: stop@ }),
            seen@.contains(entry),
            forall|b: usize| seen@.contains(b) ==> b < adj@.len() && g.reaches(entry, b),
            forall|i: int| 0 <= i < q@.len() ==> #[trigger] seen@.contains(q@[i]),
            forall|x: usize, y: usize|
                seen@.contains(x) && !q@.contains(x) && #[trigger] g.edge(x, y) ==> seen@.contains(y),
        decreases unseen(adj@.len(), seen@), q.len(),
    {
        let ghost q0 = q@;
        let ghost s0 = seen@;
        let b = q.pop().unwrap();
        assert(seen@.contains(q0[q0.len() - 1]));
        assert forall|x: usize| x != b && q0.contains(x) implies q@.contains(x) by {
            let j = choose|j: int| 0 <= j < q0.len() && q0[j] == x;
            assert(q@[j] == x);
        }
        let mut i: usize = 0;
        while i < adj[b].len()
            invariant
                g.closed(),
                n == adj@.len(),
                entry < adj@.len(),
                g == (Graph { adj: dominators::lists(adj@), bar: stop@ }),
                b < adj@.len(),
                i <= adj@[b as int]@.len(),
                g.reaches(entry, b),
                seen@.contains(entry),
                seen@.contains(b),
                s0.subset_of(seen@),
                unseen(adj@.len(), seen@) < unseen(adj@.len(), s0) || (seen@ == s0 && q.len() < q0.len()),
                forall|b: usize| seen@.contains(b) ==> b < adj@.len() && g.reaches(entry, b),
                forall|i: int| 0 <= i < q@.len() ==> #[trigger] seen@.contains(q@[i]),
                forall|x: usize, y: usize|
                    x != b && seen@.contains(x) && !q@.contains(x) && #[trigger] g.edge(x, y)
                        ==> seen@.contains(y),
                forall|k: int|
                    0 <= k < i ==> stop@.contains(#[trigger] adj@[b as int]@[k])
                        || seen@.contains(adj@[b as int]@[k]),
            decreases adj@[b as int]@.len() - i,
        {
            let s = adj[b][i];
            assert(g.adj[b as int][i as int] < g.adj.len());
            if !stop.contains(&s) && !seen.contains(&s) {
                proof {
                    assert(g.adj[b as int].contains(s));
                    g.lemma_reaches_step(entry, b, s);
                    lemma_unseen_insert(adj@.len(), seen@, s);
                    lemma_unseen_subset(adj@.len(), s0, seen@);
                }
                let ghost q1 = q@;
                seen.insert(s);
                q.push(s);
                assert(q@[q1.len() as int] == s);
                assert forall|x: usize| q1.contains(x) implies q@.contains(x) by {
                    let j = choose|j: int| 0 <= j < q1.len() && q1[j] == x;
                    assert(q@[j] == x);
                }
            }
            i += 1;
        }
        assert forall|x: usize, y: usize|
            seen@.contains(x) && !q@.contains(x) && #[trigger] g.edge(x, y) implies seen@.contains(y) by {
            if x == b {
                let k = choose|k: int| 0 <= k < g.adj[x as int].len() && g.adj[x as int][k] == y;
                assert(adj@[b as int]@[k] == y);
            }
        }
    }
    assert forall|b: usize| g.reaches(entry, b) implies seen@.contains(b) by {
        g.lemma_closed_set(entry, seen@, b);
    }
    assert(seen@ =~= g.reach(entry));
    seen
}

/// True when `from` reaches `to` through normal-flow successors without
/// expanding any `barred` block (`to` itself may be barred: reaching it is the
/// success condition).
pub(crate) fn bypass_flows_to(cfg: &Cfg, from: usize, to: usize, barred: &HashSet<usize>) -> (r: bool)
    requires
        cfg.wf(),
        from < cfg.n(),
    ensures
        r == cfg.bypasses(from, to, barred@),
{
    if from == to {
        return true;
    }
    let mut i: usize = 0;
    let ghost g = cfg.flow(barred@);
    let reached = flood(cfg, from, barred);
    while i < cfg.blocks.len()
        invariant
            i <= cfg.n(),
            from < cfg.n(),
            g == cfg.flow(barred@),
            reached@ == g.reach(from),
            forall|b: usize| #[trigger] reached@.contains(b) ==> b < cfg.n(),
            forall|x: usize| x < i && g.reaches(from, x) ==> !(#[trigger] cfg.succ(x).contains(to)),
        decreases cfg.n() - i,
    {
        if reached.contains(&i) && crate::sets::list_has(&cfg.blocks[i].succ, to) {
            assert(g.reaches(from, i) && cfg.succ(i).contains(to));
            return true;
        }
        i += 1;
    }
    assert forall|x: usize| #[trigger] g.reaches(from, x) implies !cfg.succ(x).contains(to) by {
        assert(reached@.contains(x));
    }
    false
}

} // verus!
