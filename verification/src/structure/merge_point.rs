//! The nearest reconvergence point of a branch.

use std::collections::{HashMap, HashSet};

use vstd::prelude::*;

use crate::cfg::Cfg;
use crate::ir::{BlockResult, Term};
use crate::sets::{copy_set, list_has};
use crate::structure::graph;
use crate::structure::graph::Graph;
use crate::structure::postdom::keep_in;
use crate::structure::reach;
use crate::structure::reach::can_reach_cfg;

verus! {

broadcast use vstd::std_specs::hash::group_hash_axioms;

// ---------------------------------------------------------------------------
// Distances
// ---------------------------------------------------------------------------

/// The blocks at most `limit` steps from `from` inside `allowed`, with their
/// distances.
fn distances(cfg: &Cfg, from: usize, allowed: &HashSet<usize>, limit: usize) -> (d: HashMap<usize, usize>)
    requires
        cfg.wf(),
        from < cfg.n(),
    ensures
        d@.dom() == cfg.within(allowed@).ball(from, limit as nat),
        forall|x: usize| #[trigger] d@.dom().contains(x) ==> x < cfg.n() && d@[x] <= limit && d@[x] < cfg.n()
            && cfg.within(allowed@).at_dist(from, x, d@[x] as nat),
        limit >= cfg.n() ==> d@.dom() == cfg.within(allowed@).reach(from),
{
    let ghost g = cfg.within(allowed@);
    let n: usize = cfg.blocks.len();
    let mut d: HashMap<usize, usize> = HashMap::new();
    let mut front: Vec<usize> = Vec::new();
    d.insert(from, 0);
    front.push(from);
    let mut k: usize = 0;
    proof {
        cfg.lemma_flow_closed(allowed@.complement());
        assert(d@.dom() =~= g.ball(from, 0));
        assert(front@[0] == from);
        graph::lemma_unseen_insert(n as nat, Set::empty(), from);
        graph::lemma_unseen_all(n as nat);
        assert(d@.dom() =~= Set::empty().insert(from));
    }
    while k < limit
        invariant
            cfg.wf(),
            n == cfg.n(),
            from < n,
            g == cfg.within(allowed@),
            g.closed(),
            k <= limit,
            d@.dom() == g.ball(from, k as nat),
            forall|x: usize| #[trigger] d@.dom().contains(x) ==> x < n && d@[x] <= k && d@[x] < n && g.at_dist(from, x, d@[x] as nat),
            forall|x: usize| #[trigger] front@.contains(x) <==> d@.dom().contains(x) && d@[x] == k,
            graph::unseen(n as nat, d@.dom()) + k < n,
        decreases limit - k,
    {
        let ghost d0 = d@;
        let ghost inner = g.ball(from, k as nat);
        let mut next: Vec<usize> = Vec::new();
        let mut i: usize = 0;
        while i < front.len()
            invariant
                cfg.wf(),
                n == cfg.n(),
                from < n,
                g == cfg.within(allowed@),
                g.closed(),
                k < limit,
                i <= front@.len(),
                inner == g.ball(from, k as nat),
                d0.dom() == inner,
                forall|x: usize| #[trigger] d0.dom().contains(x) ==> x < n && d0[x] <= k && d0[x] < n && g.at_dist(from, x, d0[x] as nat),
                forall|x: usize| #[trigger] front@.contains(x) <==> d0.dom().contains(x) && d0[x] == k,
                forall|x: usize| #[trigger] d0.dom().contains(x) ==> d@.dom().contains(x) && d@[x] == d0[x],
                forall|x: usize| #[trigger] d@.dom().contains(x) ==> d0.dom().contains(x) || next@.contains(x),
                forall|x: usize| #[trigger] next@.contains(x) ==> x < n && d@.dom().contains(x) && d@[x] == k + 1 && !inner.contains(x) && exists|b: usize| inner.contains(b) && #[trigger] g.edge(b, x),
                forall|j: int, y: usize| 0 <= j < i && #[trigger] g.edge(front@[j], y) ==> d@.dom().contains(y),
                graph::unseen(n as nat, d0.dom()) + k < n,
                d@.dom() == d0.dom() ==> next@.len() == 0,
                graph::unseen(n as nat, d@.dom()) <= graph::unseen(n as nat, d0.dom()),
                next@.len() > 0 ==> graph::unseen(n as nat, d@.dom()) < graph::unseen(n as nat, d0.dom()),
            decreases front@.len() - i,
        {
            let b = front[i];
            assert(front@.contains(front@[i as int]));
            let mut j: usize = 0;
            while j < cfg.blocks[b].succ.len()
                invariant
                    cfg.wf(),
                    n == cfg.n(),
                    from < n,
                    g == cfg.within(allowed@),
                    k < limit,
                    i < front@.len(),
                    b == front@[i as int],
                    b < n,
                    inner.contains(b),
                    j <= cfg.blocks@[b as int].succ@.len(),
                    inner == g.ball(from, k as nat),
                    d0.dom() == inner,
                    forall|x: usize| #[trigger] d0.dom().contains(x) ==> d@.dom().contains(x) && d@[x] == d0[x],
                    forall|x: usize| #[trigger] d@.dom().contains(x) ==> d0.dom().contains(x) || next@.contains(x),
                    forall|x: usize| #[trigger] next@.contains(x) ==> x < n && d@.dom().contains(x) && d@[x] == k + 1 && !inner.contains(x) && exists|b: usize| inner.contains(b) && #[trigger] g.edge(b, x),
                    forall|j: int, y: usize| 0 <= j < i && #[trigger] g.edge(front@[j], y) ==> d@.dom().contains(y),
                    forall|m: int| 0 <= m < j ==> !allowed@.contains(#[trigger] cfg.blocks@[b as int].succ@[m]) || d@.dom().contains(cfg.blocks@[b as int].succ@[m]),
                    graph::unseen(n as nat, d0.dom()) + k < n,
                    d@.dom() == d0.dom() ==> next@.len() == 0,
                    graph::unseen(n as nat, d@.dom()) <= graph::unseen(n as nat, d0.dom()),
                    next@.len() > 0 ==> graph::unseen(n as nat, d@.dom()) < graph::unseen(n as nat, d0.dom()),
                decreases cfg.blocks@[b as int].succ@.len() - j,
            {
                let s = cfg.blocks[b].succ[j];
                if allowed.contains(&s) && !d.contains_key(&s) {
                    let ghost d1 = d@;
                    let ghost n1 = next@;
                    proof {
                        assert(g.adj[b as int].contains(s));
                        assert(g.edge(b, s));
                        graph::lemma_unseen_insert(n as nat, d@.dom(), s);
                        assert(cfg.blocks@[b as int].succ@[j as int] < n);
                        assert(!d0.dom().contains(s));
                    }
                    d.insert(s, k + 1);
                    next.push(s);
                    proof {
                        assert(d@.dom() =~= d1.dom().insert(s));
                        assert(next@[n1.len() as int] == s);
                        assert forall|x: usize| #[trigger] next@.contains(x) <==> n1.contains(x) || x == s by {
                            if n1.contains(x) {
                                let m = choose|m: int| 0 <= m < n1.len() && n1[m] == x;
                                assert(next@[m] == x);
                            }
                            if next@.contains(x) && x != s {
                                let m = choose|m: int| 0 <= m < next@.len() && next@[m] == x;
                                assert(n1[m] == x);
                            }
                        }
                        assert(d@.dom().contains(s));
                    }
                }
                j += 1;
            }
            assert forall|m: int, y: usize| 0 <= m < i + 1 && #[trigger] g.edge(front@[m], y) implies d@.dom().contains(y) by {
                if m == i {
                    let q = choose|q: int| 0 <= q < g.adj[b as int].len() && g.adj[b as int][q] == y;
                    assert(cfg.blocks@[b as int].succ@[q] == y);
                }
            }
            i += 1;
        }
        proof {
            assert forall|x: usize| d@.dom().contains(x) <==> #[trigger] g.ball(from, (k + 1) as nat).contains(x) by {
                if g.ball(from, (k + 1) as nat).contains(x) && !inner.contains(x) {
                    let b = choose|b: usize| #[trigger] inner.contains(b) && g.edge(b, x);
                    assert(d0.dom().contains(b));
                    if d0[b] == k {
                        assert(front@.contains(b));
                        let m = choose|m: int| 0 <= m < front@.len() && front@[m] == b;
                        assert(g.edge(front@[m], x));
                    } else {
                        // Seen from nearer in: already there.
                        assert(g.at_dist(from, b, d0[b] as nat));
                        assert(g.ball(from, (d0[b] + 1) as nat).contains(x));
                        g.lemma_ball_grows(from, (d0[b] + 1) as nat, k as nat, x);
                    }
                }
                if d@.dom().contains(x) && !inner.contains(x) {
                    assert(next@.contains(x));
                    let b = choose|b: usize| inner.contains(b) && #[trigger] g.edge(b, x);
                    assert(inner.contains(b));
                }
            }
            assert(d@.dom() =~= g.ball(from, (k + 1) as nat));
            assert forall|x: usize| #[trigger] d@.dom().contains(x) implies x < n && d@[x] <= k + 1 && d@[x] < n && g.at_dist(from, x, d@[x] as nat) by {
                if !d0.dom().contains(x) {
                    assert(next@.contains(x));
                    assert(next@.len() > 0);
                    assert(g.ball(from, (k + 1) as nat).contains(x));
                }
            }
            assert forall|x: usize| #[trigger] next@.contains(x) <==> d@.dom().contains(x) && d@[x] == k + 1 by {
                if d@.dom().contains(x) && d@[x] == k + 1 {
                    assert(!d0.dom().contains(x));
                }
            }
            if next@.len() == 0 {
                assert forall|x: usize| d@.dom().contains(x) <==> d0.dom().contains(x) by {}
                assert(d@.dom() =~= d0.dom());
                lemma_ball_stuck(g, from, k as nat, limit as nat);
                lemma_stuck_reach(g, from, k as nat);
            }
        }
        if next.len() == 0 {
            proof {
                g.lemma_reaches_self(from);
            }
            return d;
        }
        front = next;
        k += 1;
    }
    d
}

proof fn lemma_ball_stuck(g: Graph, from: usize, k: nat, m: nat)
    requires
        g.ball(from, (k + 1) as nat) == g.ball(from, k),
        k <= m,
    ensures
        g.ball(from, m) == g.ball(from, k),
    decreases m,
{
    if k < m {
        lemma_ball_stuck(g, from, k, (m - 1) as nat);
        let a = g.ball(from, m);
        let b = g.ball(from, (k + 1) as nat);
        assert(a =~= b);
    }
}

proof fn lemma_stuck_reach(g: Graph, from: usize, k: nat)
    requires
        g.ball(from, (k + 1) as nat) == g.ball(from, k),
    ensures
        g.ball(from, k) == g.reach(from),
{
    assert forall|x: usize| g.reaches(from, x) implies #[trigger] g.ball(from, k).contains(x) by {
        let j = choose|j: nat| #[trigger] g.ball(from, j).contains(x);
        if j <= k {
            g.lemma_ball_grows(from, j, k, x);
        } else {
            lemma_ball_stuck(g, from, k, j);
        }
    }
    assert(g.ball(from, k) =~= g.reach(from));
}

// ---------------------------------------------------------------------------
// False merges
// ---------------------------------------------------------------------------

/// What the choice of a merge depends on besides the graph.
pub struct MergeFacts {
    pub results: Seq<BlockResult>,
    pub universe: Set<usize>,
    pub group_owned: Set<usize>,
    pub stmt_counts: Seq<usize>,
    pub body_group_of: Map<usize, usize>,
    pub entry_group: Option<usize>,
    pub terminators: Set<usize>,
    pub abrupt_only: Set<usize>,
    pub final_writers: Set<usize>,
}

/// The blocks one to four steps behind `cand` on ways that never enter `entry`.
pub open spec fn tail_of(cfg: Cfg, entry: usize, cand: usize) -> Set<usize> {
    Set::new(
        |x: usize|
            exists|s: usize| #[trigger]
                cfg.succ(cand).contains(s) && s != entry && cfg.flow(
                    Set::empty().insert(entry),
                ).ball(s, 3).contains(x),
    )
}

/// A search for a way round `cand` that re-joins its tail.
pub struct Detour {
    pub start: usize,
    pub cand: usize,
    pub tail: Set<usize>,
    pub terminators: Set<usize>,
    pub big: bool,
}

impl Detour {
    /// Whether code outside the tail (other than the start) has been passed
    /// once `b` is, given whether it had been before.
    pub open spec fn own(self, b: usize, own: bool) -> bool {
        own || (b != self.start && !self.tail.contains(b))
    }

    /// Stepping on `x` counts as re-joining the tail.
    pub open spec fn rejoins(self, own: bool, x: usize) -> bool {
        self.tail.contains(x) && (own || self.big) && !self.terminators.contains(x)
    }

    /// The queue and seen set after the successors from position `k` on, or
    /// `None` when one of them re-joins the tail.
    pub open spec fn spread(self, list: Seq<usize>, k: nat, own: bool, queue: Seq<(usize, bool)>, seen: Set<usize>) -> Option<(Seq<(usize, bool)>, Set<usize>)>
        decreases list.len() - k,
    {
        if k >= list.len() {
            Some((queue, seen))
        } else {
            let x = list[k as int];
            if x == self.cand || seen.contains(x) {
                self.spread(list, (k + 1) as nat, own, queue, seen)
            } else if self.rejoins(own, x) {
                None
            } else {
                self.spread(list, (k + 1) as nat, own, queue.push((x, own)), seen.insert(x))
            }
        }
    }

    /// A breadth-first search with `queue` ahead re-joins the tail within
    /// `fuel` expansions.
    pub open spec fn found(self, adj: Seq<Seq<usize>>, queue: Seq<(usize, bool)>, seen: Set<usize>, fuel: nat) -> bool
        decreases fuel,
    {
        if queue.len() == 0 || fuel == 0 {
            false
        } else {
            let (b, own) = queue[0];
            if b == self.cand {
                self.found(adj, queue.skip(1), seen, (fuel - 1) as nat)
            } else {
                match self.spread(adj[b as int], 0, self.own(b, own), queue.skip(1), seen) {
                    None => true,
                    Some((q, s)) => self.found(adj, q, s, (fuel - 1) as nat),
                }
            }
        }
    }
}

/// A way from one of `succs` runs round `cand` and re-joins its tail after
/// code of its own (or straight away, when the shared tail is large) at a
/// block that is not a quiet terminator.
pub open spec fn detour(cfg: Cfg, m: MergeFacts, entry: usize, start: usize, cand: usize) -> bool {
    let d = Detour {
        start,
        cand,
        tail: tail_of(cfg, entry, cand),
        terminators: m.terminators,
        big: cand < m.stmt_counts.len() && m.stmt_counts[cand as int] >= 8,
    };
    d.found(cfg.adj(), seq![(start, false)], Set::empty().insert(start), cfg.n())
}

/// The result of the block is known, and it throws.
pub open spec fn ends_in_throw(results: Seq<BlockResult>, b: usize) -> bool {
    b < results.len() && results[b as int].term is Throw
}

/// The result of the block is known, and it jumps.
pub open spec fn ends_in_goto(results: Seq<BlockResult>, b: usize) -> bool {
    b < results.len() && results[b as int].term is Goto
}

/// `x` lies on a live way that never comes to `cand`.
pub open spec fn skips(cfg: Cfg, m: MergeFacts, cand: usize, x: usize) -> bool {
    &&& !reach::reached(cfg.flow(Set::empty()), x, cand, 4096)
    &&& (!(m.terminators.contains(x) || m.abrupt_only.contains(x)) || (cfg.len(cand) > 0
        && ends_in_throw(m.results, cand)))
}

/// The terminator `cand` is not on some live way from `start`.
pub open spec fn skipped(cfg: Cfg, m: MergeFacts, start: usize, cand: usize) -> bool {
    start != cand && exists|x: usize| #[trigger]
        cfg.flow(Set::empty().insert(cand)).reaches(start, x) && x != start && skips(cfg, m, cand, x)
}

/// A direct successor `cand` of `entry` that some way passes by: a branch,
/// not the merge.
pub open spec fn false_merge(cfg: Cfg, m: MergeFacts, entry: usize, succs: Seq<usize>, cand: usize) -> bool {
    ||| {
        &&& !(cfg.len(cand) == 1 && ends_in_goto(m.results, cand))
        &&& !(succs.len() == 2 && succs[0] == cand)
        &&& !(m.entry_group is Some && m.body_group_of.dom().contains(cand) && m.body_group_of[cand]
            == m.entry_group->0)
        &&& !m.group_owned.contains(cand)
        &&& exists|i: int| 0 <= i < succs.len() && detour(cfg, m, entry, #[trigger] succs[i], cand)
    }
    ||| {
        &&& m.terminators.contains(cand)
        &&& !m.final_writers.contains(cand)
        &&& exists|i: int| 0 <= i < succs.len() && skipped(cfg, m, #[trigger] succs[i], cand)
    }
}

/// `cand` is dropped from the candidates for the merge of `entry`.
pub open spec fn rejected(cfg: Cfg, m: MergeFacts, entry: usize, succs: Seq<usize>, cand: usize) -> bool {
    !cfg.succ(entry).contains(entry) && succs.contains(cand) && false_merge(cfg, m, entry, succs, cand)
}

// ---------------------------------------------------------------------------
// Nearest common block
// ---------------------------------------------------------------------------

/// Every source reaches `c` in its graph.
pub open spec fn meets(gs: Seq<Graph>, srcs: Seq<usize>, c: usize) -> bool {
    forall|i: int| 0 <= i < gs.len() ==> (#[trigger] gs[i]).reaches(srcs[i], c)
}

/// The sum of the distances of `c` from the first `k` sources.
pub open spec fn score(gs: Seq<Graph>, srcs: Seq<usize>, c: usize, k: nat) -> nat
    decreases k,
{
    if k == 0 {
        0
    } else {
        score(gs, srcs, c, (k - 1) as nat) + gs[k - 1].dist(srcs[k - 1], c)->0
    }
}

/// Candidates are ordered by score, then by code offset, then by id.
pub open spec fn no_worse(cfg: Cfg, gs: Seq<Graph>, srcs: Seq<usize>, a: usize, b: usize) -> bool {
    let x = score(gs, srcs, a, gs.len());
    let y = score(gs, srcs, b, gs.len());
    x < y || (x == y && (cfg.start(a) < cfg.start(b) || (cfg.start(a) == cfg.start(b) && a <= b)))
}

/// `c` is the first of the blocks that pass `ok` and that every source reaches.
pub open spec fn nearest(cfg: Cfg, gs: Seq<Graph>, srcs: Seq<usize>, ok: spec_fn(usize) -> bool, c: usize) -> bool {
    &&& c < cfg.n()
    &&& ok(c)
    &&& meets(gs, srcs, c)
    &&& forall|d: usize| d < cfg.n() && ok(d) && #[trigger] meets(gs, srcs, d) ==> no_worse(cfg, gs, srcs, c, d)
}

/// The flow from each branch: inside the universe, never back through `entry`.
pub open spec fn branch_flows(cfg: Cfg, m: MergeFacts, entry: usize, succs: Seq<usize>) -> Seq<Graph> {
    Seq::new(succs.len(), |i: int| cfg.within(m.universe.remove(entry)))
}

/// The blocks that other branches than the `i`-th start at.
pub open spec fn siblings(succs: Seq<usize>, i: int) -> Set<usize> {
    Set::new(|x: usize| exists|j: int| 0 <= j < succs.len() && j != i && #[trigger] succs[j] == x)
}

/// The flow from each branch that stays out of the other branches' starts.
pub open spec fn own_flows(cfg: Cfg, m: MergeFacts, entry: usize, succs: Seq<usize>) -> Seq<Graph> {
    Seq::new(
        succs.len(),
        |i: int| cfg.within(m.universe.remove(entry).difference(siblings(succs, i))),
    )
}

pub open spec fn plain_ok(cfg: Cfg, m: MergeFacts, entry: usize, succs: Seq<usize>) -> spec_fn(usize) -> bool {
    |c: usize| c != entry && !rejected(cfg, m, entry, succs, c)
}

pub open spec fn beyond_ok(entry: usize, succs: Seq<usize>) -> spec_fn(usize) -> bool {
    |c: usize| c != entry && !succs.contains(c)
}

/// Some candidate was dropped.
pub open spec fn any_rejected(cfg: Cfg, m: MergeFacts, entry: usize, succs: Seq<usize>) -> bool {
    exists|c: usize| #[trigger]
        cfg.within(m.universe.remove(entry)).reaches(succs[0], c) && c != entry && rejected(
            cfg,
            m,
            entry,
            succs,
            c,
        )
}

/// `r` is the merge of `entry`: the nearest block that all its branches
/// reach. When a false merge was dropped and the nearest block is at most 8
/// steps away in total, a block that each branch reaches on its own way in at
/// most 8 steps in total goes first.
pub open spec fn merge_is(cfg: Cfg, m: MergeFacts, entry: usize, r: Option<usize>) -> bool {
    let succs = cfg.succ(entry).filter(|x: usize| m.universe.contains(x));
    let gs = branch_flows(cfg, m, entry, succs);
    let hs = own_flows(cfg, m, entry, succs);
    if succs.len() < 2 {
        r is None
    } else {
        &&& (r is None ==> forall|c: usize| !#[trigger] nearest(cfg, gs, succs, plain_ok(cfg, m, entry, succs), c))
        &&& (r matches Some(c) ==> exists|b: usize| #[trigger]
            nearest(cfg, gs, succs, plain_ok(cfg, m, entry, succs), b) && {
                let near = any_rejected(cfg, m, entry, succs) && score(gs, succs, b, gs.len()) <= 8;
                if near && exists|d: usize| #[trigger]
                    nearest(cfg, hs, succs, beyond_ok(entry, succs), d) && score(hs, succs, d, hs.len()) <= 8 {
                    nearest(cfg, hs, succs, beyond_ok(entry, succs), c)
                } else {
                    c == b
                }
            })
    }
}

/// At most one block is nearest.
pub proof fn law_nearest_unique(cfg: Cfg, gs: Seq<Graph>, srcs: Seq<usize>, ok: spec_fn(usize) -> bool, a: usize, b: usize)
    requires
        nearest(cfg, gs, srcs, ok, a),
        nearest(cfg, gs, srcs, ok, b),
    ensures
        a == b,
{
    assert(meets(gs, srcs, a) && meets(gs, srcs, b));
}

/// The merge of a branch is determined.
pub proof fn law_merge_unique(cfg: Cfg, m: MergeFacts, entry: usize, a: Option<usize>, b: Option<usize>)
    requires
        merge_is(cfg, m, entry, a),
        merge_is(cfg, m, entry, b),
    ensures
        a == b,
{
    let succs = cfg.succ(entry).filter(|x: usize| m.universe.contains(x));
    let gs = branch_flows(cfg, m, entry, succs);
    let hs = own_flows(cfg, m, entry, succs);
    if succs.len() >= 2 && a is Some && b is Some {
        let ok = plain_ok(cfg, m, entry, succs);
        let p = choose|p: usize| #[trigger] nearest(cfg, gs, succs, ok, p);
        assert forall|q: usize| #[trigger] nearest(cfg, gs, succs, ok, q) implies q == p by {
            law_nearest_unique(cfg, gs, succs, ok, p, q);
        }
        let bo = beyond_ok(entry, succs);
        if exists|d: usize| #[trigger] nearest(cfg, hs, succs, bo, d) {
            let d = choose|d: usize| #[trigger] nearest(cfg, hs, succs, bo, d);
            assert forall|q: usize| #[trigger] nearest(cfg, hs, succs, bo, q) implies q == d by {
                law_nearest_unique(cfg, hs, succs, bo, d, q);
            }
        }
    }
}

fn offer_detour(list: &Vec<usize>, d: &DetourExec, own: bool, q: &mut Vec<(usize, bool)>, seen: &mut HashSet<usize>) -> (r: bool)
    ensures
        r == (d@.spread(list@, 0, own, old(q)@, old(seen)@) is None),
        !r ==> d@.spread(list@, 0, own, old(q)@, old(seen)@) == Some((final(q)@, final(seen)@)),
{
    let ghost q0 = q@;
    let ghost s0 = seen@;
    let mut i: usize = 0;
    while i < list.len()
        invariant
            i <= list@.len(),
            q0 == old(q)@,
            s0 == old(seen)@,
            d@.spread(list@, i as nat, own, q@, seen@) == d@.spread(list@, 0, own, q0, s0),
        decreases list@.len() - i,
    {
        let x = list[i];
        if !(x == d.cand || seen.contains(&x)) {
            if d.tail.contains(&x) && (own || d.big) && !d.terminators.contains(&x) {
                return true;
            }
            seen.insert(x);
            q.push((x, own));
        }
        i += 1;
    }
    false
}

struct DetourExec<'a> {
    start: usize,
    cand: usize,
    tail: HashSet<usize>,
    terminators: &'a HashSet<usize>,
    big: bool,
}

impl<'a> View for DetourExec<'a> {
    type V = Detour;

    closed spec fn view(&self) -> Detour {
        Detour {
            start: self.start,
            cand: self.cand,
            tail: self.tail@,
            terminators: self.terminators@,
            big: self.big,
        }
    }
}

proof fn lemma_spread(d: Detour, n: nat, list: Seq<usize>, k: nat, own: bool, head: Seq<(usize, bool)>, queue: Seq<(usize, bool)>, seen: Set<usize>)
    requires
        n <= usize::MAX,
        forall|i: int| 0 <= i < list.len() ==> #[trigger] list[i] < n,
        forall|i: int| 0 <= i < (head + queue).len() ==> (#[trigger] (head + queue)[i]).0 < n,
    ensures
        match d.spread(list, k, own, queue, seen) {
            None => d.spread(list, k, own, head + queue, seen) is None,
            Some((q, s)) => {
                &&& d.spread(list, k, own, head + queue, seen) == Some((head + q, s))
                &&& q.len() + graph::unseen(n, s) == queue.len() + graph::unseen(n, seen)
                &&& forall|i: int| 0 <= i < (head + q).len() ==> (#[trigger] (head + q)[i]).0 < n
            },
        },
    decreases list.len() - k,
{
    if k < list.len() {
        let x = list[k as int];
        if x == d.cand || seen.contains(x) {
            lemma_spread(d, n, list, (k + 1) as nat, own, head, queue, seen);
        } else if !d.rejoins(own, x) {
            assert(list[k as int] < n);
            graph::lemma_unseen_insert(n, seen, x);
            assert((head + queue).push((x, own)) =~= head + queue.push((x, own)));
            assert forall|i: int| 0 <= i < (head + queue.push((x, own))).len() implies (#[trigger] (head + queue.push((x, own)))[i]).0 < n by {
                if i < (head + queue).len() {
                    assert((head + queue)[i].0 < n);
                    assert((head + queue.push((x, own)))[i] == (head + queue)[i]);
                }
            }
            lemma_spread(d, n, list, (k + 1) as nat, own, head, queue.push((x, own)), seen.insert(x));
        }
    }
}

fn has_detour(cfg: &Cfg, d: &DetourExec) -> (r: bool)
    requires
        cfg.wf(),
        d.start < cfg.n(),
    ensures
        r == d@.found(cfg.adj(), seq![(d.start, false)], Set::empty().insert(d.start), cfg.n()),
{
    let n: usize = cfg.blocks.len();
    let ghost adj = cfg.adj();
    let mut seen: HashSet<usize> = HashSet::new();
    let mut q: Vec<(usize, bool)> = Vec::new();
    seen.insert(d.start);
    q.push((d.start, false));
    let mut head: usize = 0;
    let ghost mut fuel: nat = cfg.n();
    proof {
        assert(seen@ =~= Set::empty().insert(d.start));
        assert(q@.skip(0) =~= seq![(d.start, false)]);
        graph::lemma_unseen_insert(n as nat, Set::empty(), d.start);
        graph::lemma_unseen_all(n as nat);
    }
    while head < q.len()
        invariant
            cfg.wf(),
            n == cfg.n(),
            adj == cfg.adj(),
            head <= q@.len(),
            forall|i: int| 0 <= i < q@.len() ==> (#[trigger] q@[i]).0 < n,
            fuel >= q@.len() - head + graph::unseen(n as nat, seen@),
            d@.found(adj, q@.skip(head as int), seen@, fuel) == d@.found(adj, seq![(d.start, false)], Set::empty().insert(d.start), cfg.n()),
        decreases fuel,
    {
        let ghost q0 = q@;
        let ghost s0 = seen@;
        let ghost queue = q@.skip(head as int);
        let (b, own0) = q[head];
        assert(queue[0] == (b, own0));
        assert(q@[head as int].0 < n);
        head += 1;
        let ghost done = q@.take(head as int);
        proof {
            fuel = (fuel - 1) as nat;
            assert(q0 =~= done + queue.skip(1));
        }
        if b == d.cand {
            assert(q@.skip(head as int) =~= queue.skip(1));
        } else {
            let own = own0 || (b != d.start && !d.tail.contains(&b));
            proof {
                assert forall|i: int| 0 <= i < adj[b as int].len() implies #[trigger] adj[b as int][i] < n by {
                    assert(cfg.blocks@[b as int].succ@[i] < n);
                }
                lemma_spread(d@, n as nat, adj[b as int], 0, own, done, queue.skip(1), s0);
            }
            if offer_detour(&cfg.blocks[b].succ, d, own, &mut q, &mut seen) {
                return true;
            }
            proof {
                let (q2, s2) = d@.spread(adj[b as int], 0, own, queue.skip(1), s0)->0;
                assert(q@ == done + q2);
                assert(q@.skip(head as int) =~= q2);
            }
        }
    }
    false
}

/// The tail of `cand`.
fn tail_set(cfg: &Cfg, entry: usize, cand: usize, all_but_entry: &HashSet<usize>) -> (r: HashSet<usize>)
    requires
        cfg.wf(),
        cand < cfg.n(),
        forall|x: usize| #[trigger] all_but_entry@.contains(x) <==> x < cfg.n() && x != entry,
    ensures
        r@ == tail_of(*cfg, entry, cand),
{
    let mut r: HashSet<usize> = HashSet::new();
    let ghost g = cfg.within(all_but_entry@);
    let ghost h = cfg.flow(Set::empty().insert(entry));
    proof {
        assert forall|a: usize, b: usize| #[trigger] g.edge(a, b) == h.edge(a, b) by {
            if h.edge(a, b) {
                let k = choose|k: int| 0 <= k < h.adj[a as int].len() && h.adj[a as int][k] == b;
                assert(cfg.blocks@[a as int].succ@[k] < cfg.n());
            }
        }
    }
    let mut i: usize = 0;
    while i < cfg.blocks[cand].succ.len()
        invariant
            cfg.wf(),
            cand < cfg.n(),
            g == cfg.within(all_but_entry@),
            h == cfg.flow(Set::empty().insert(entry)),
            forall|a: usize, b: usize| #[trigger] g.edge(a, b) == h.edge(a, b),
            i <= cfg.blocks@[cand as int].succ@.len(),
            forall|x: usize| #[trigger] r@.contains(x) <==> exists|k: int| 0 <= k < i && (#[trigger] cfg.succ(cand)[k]) != entry && h.ball(cfg.succ(cand)[k], 3).contains(x),
        decreases cfg.blocks@[cand as int].succ@.len() - i,
    {
        let s = cfg.blocks[cand].succ[i];
        let ghost r0 = r@;
        assert(s == cfg.succ(cand)[i as int]);
        if s != entry {
            assert(cfg.blocks@[cand as int].succ@[i as int] < cfg.n());
            let d = distances(cfg, s, all_but_entry, 3);
            proof {
                lemma_same_ball(g, h, s, 3);
            }
            let mut x: usize = 0;
            while x < cfg.blocks.len()
                invariant
                    x <= cfg.n(),
                    forall|y: usize| #[trigger] r@.contains(y) <==> r0.contains(y) || (y < x && d@.dom().contains(y)),
                decreases cfg.n() - x,
            {
                if d.contains_key(&x) {
                    r.insert(x);
                }
                x += 1;
            }
        }
        assert forall|x: usize| #[trigger] r@.contains(x) <==> exists|k: int| 0 <= k < i + 1 && (#[trigger] cfg.succ(cand)[k]) != entry && h.ball(cfg.succ(cand)[k], 3).contains(x) by {
            if r@.contains(x) && !r0.contains(x) {
                assert(cfg.succ(cand)[i as int] != entry && h.ball(cfg.succ(cand)[i as int], 3).contains(x));
            }
            if r0.contains(x) {
                let k = choose|k: int| 0 <= k < i && (#[trigger] cfg.succ(cand)[k]) != entry && h.ball(cfg.succ(cand)[k], 3).contains(x);
                assert(cfg.succ(cand)[k] != entry);
            }
        }
        i += 1;
    }
    proof {
        assert forall|x: usize| r@.contains(x) <==> #[trigger] tail_of(*cfg, entry, cand).contains(x) by {
            if r@.contains(x) {
                let k = choose|k: int| 0 <= k < i && (#[trigger] cfg.succ(cand)[k]) != entry && h.ball(cfg.succ(cand)[k], 3).contains(x);
                assert(cfg.succ(cand).contains(cfg.succ(cand)[k]));
            }
            if tail_of(*cfg, entry, cand).contains(x) {
                let s = choose|s: usize| #[trigger] cfg.succ(cand).contains(s) && s != entry && h.ball(s, 3).contains(x);
                let k = choose|k: int| 0 <= k < cfg.succ(cand).len() && cfg.succ(cand)[k] == s;
                assert(cfg.succ(cand)[k] != entry);
            }
        }
        assert(r@ =~= tail_of(*cfg, entry, cand));
    }
    r
}

proof fn lemma_same_ball(g: Graph, h: Graph, from: usize, k: nat)
    requires
        forall|a: usize, b: usize| #[trigger] g.edge(a, b) == h.edge(a, b),
    ensures
        g.ball(from, k) == h.ball(from, k),
    decreases k,
{
    if k > 0 {
        lemma_same_ball(g, h, from, (k - 1) as nat);
        let inner = g.ball(from, (k - 1) as nat);
        assert forall|y: usize| g.ball(from, k).contains(y) == h.ball(from, k).contains(y) by {
            if g.ball(from, k).contains(y) && !inner.contains(y) {
                let x = choose|x: usize| #[trigger] inner.contains(x) && g.edge(x, y);
                assert(inner.contains(x) && h.edge(x, y));
            }
            if h.ball(from, k).contains(y) && !inner.contains(y) {
                let x = choose|x: usize| #[trigger] inner.contains(x) && h.edge(x, y);
                assert(inner.contains(x) && g.edge(x, y));
            }
        }
        assert(g.ball(from, k) =~= h.ball(from, k));
    }
}

/// The choice of a merge for one branch block.
struct Branch<'a> {
    cfg: &'a Cfg,
    results: &'a [BlockResult],
    universe: &'a HashSet<usize>,
    entry: usize,
    group_owned: &'a HashSet<usize>,
    stmt_counts: &'a [usize],
    body_group_of: &'a HashMap<usize, usize>,
    entry_group: Option<usize>,
    terminators: &'a HashSet<usize>,
    abrupt_only: &'a HashSet<usize>,
    final_writers: &'a HashSet<usize>,
    all_but_entry: HashSet<usize>,
}

impl<'a> Branch<'a> {
    spec fn facts(self) -> MergeFacts {
        MergeFacts {
            results: self.results@,
            universe: self.universe@,
            group_owned: self.group_owned@,
            stmt_counts: self.stmt_counts@,
            body_group_of: self.body_group_of@,
            entry_group: self.entry_group,
            terminators: self.terminators@,
            abrupt_only: self.abrupt_only@,
            final_writers: self.final_writers@,
        }
    }

    spec fn wf(self) -> bool {
        &&& self.cfg.wf()
        &&& self.entry < self.cfg.n()
        &&& forall|x: usize| #[trigger] self.all_but_entry@.contains(x) <==> x < self.cfg.n() && x != self.entry
    }

    #[verifier::loop_isolation(false)]
    fn is_skipped(&self, start: usize, cand: usize) -> (r: bool)
        requires
            self.wf(),
            start < self.cfg.n(),
            cand < self.cfg.n(),
        ensures
            r == skipped(*self.cfg, self.facts(), start, cand),
    {
        if start == cand {
            return false;
        }
        let mut bar: HashSet<usize> = HashSet::new();
        bar.insert(cand);
        assert(bar@ =~= Set::empty().insert(cand));
        let ghost g = self.cfg.flow(Set::empty().insert(cand));
        let reach = graph::flood(self.cfg, start, &bar);
        let throws = self.cfg.blocks[cand].ins_len > 0 && cand < self.results.len() && (match &self.results[cand].term {
            Term::Throw(_) => true,
            _ => false,
        });
        let mut x: usize = 0;
        while x < self.cfg.blocks.len()
            invariant
                self.wf(),
                x <= self.cfg.n(),
                cand < self.cfg.n(),
                g == self.cfg.flow(Set::empty().insert(cand)),
                reach@ == g.reach(start),
                throws == (self.cfg.len(cand) > 0 && ends_in_throw(self.facts().results, cand)),
                forall|y: usize| y < x && #[trigger] g.reaches(start, y) && y != start ==> !skips(*self.cfg, self.facts(), cand, y),
            decreases self.cfg.n() - x,
        {
            if x != start && reach.contains(&x) && (!(self.terminators.contains(&x)
                || self.abrupt_only.contains(&x)) || throws) && !can_reach_cfg(self.cfg, x, cand, 4096) {
                assert(g.reaches(start, x) && skips(*self.cfg, self.facts(), cand, x));
                return true;
            }
            x += 1;
        }
        proof {
            self.cfg.lemma_flow_closed(Set::empty().insert(cand));
            assert forall|y: usize| #[trigger] g.reaches(start, y) && y != start implies !skips(*self.cfg, self.facts(), cand, y) by {
                g.lemma_reach_nodes(start, y);
            }
        }
        false
    }

    #[verifier::loop_isolation(false)]
    fn is_rejected(&self, succs: &Vec<usize>, cand: usize) -> (r: bool)
        requires
            self.wf(),
            cand < self.cfg.n(),
            forall|i: int| 0 <= i < succs@.len() ==> #[trigger] succs@[i] < self.cfg.n(),
        ensures
            r == rejected(*self.cfg, self.facts(), self.entry, succs@, cand),
    {
        let ghost m = self.facts();
        if list_has(&self.cfg.blocks[self.entry].succ, self.entry) || !list_has(succs, cand) {
            return false;
        }
        let stub = self.cfg.blocks[cand].ins_len == 1 && cand < self.results.len() && (match &self.results[cand].term {
            Term::Goto => true,
            _ => false,
        });
        let fall = succs.len() == 2 && succs[0] == cand;
        let same_body = match (self.entry_group, self.body_group_of.get(&cand)) {
            (Some(g), Some(h)) => g == *h,
            _ => false,
        };
        if !stub && !fall && !same_body && !self.group_owned.contains(&cand) {
            let big = cand < self.stmt_counts.len() && self.stmt_counts[cand] >= 8;
            let mut i: usize = 0;
            while i < succs.len()
                invariant
                    self.wf(),
                    m == self.facts(),
                    cand < self.cfg.n(),
                    i <= succs@.len(),
                    big == (cand < m.stmt_counts.len() && m.stmt_counts[cand as int] >= 8),
                    forall|i: int| 0 <= i < succs@.len() ==> #[trigger] succs@[i] < self.cfg.n(),
                    forall|j: int| 0 <= j < i ==> !detour(*self.cfg, m, self.entry, #[trigger] succs@[j], cand),
                decreases succs@.len() - i,
            {
                let d = DetourExec {
                    start: succs[i],
                    cand,
                    tail: tail_set(self.cfg, self.entry, cand, &self.all_but_entry),
                    terminators: self.terminators,
                    big,
                };
                if has_detour(self.cfg, &d) {
                    assert(detour(*self.cfg, m, self.entry, succs@[i as int], cand));
                    return true;
                }
                i += 1;
            }
        }
        if self.terminators.contains(&cand) && !self.final_writers.contains(&cand) {
            let mut i: usize = 0;
            while i < succs.len()
                invariant
                    self.wf(),
                    m == self.facts(),
                    cand < self.cfg.n(),
                    i <= succs@.len(),
                    forall|i: int| 0 <= i < succs@.len() ==> #[trigger] succs@[i] < self.cfg.n(),
                    forall|j: int| 0 <= j < i ==> !skipped(*self.cfg, m, #[trigger] succs@[j], cand),
                decreases succs@.len() - i,
            {
                if self.is_skipped(succs[i], cand) {
                    assert(skipped(*self.cfg, m, succs@[i as int], cand));
                    return true;
                }
                i += 1;
            }
        }
        false
    }
}

/// The distance maps of the sources say what their graphs do.
spec fn maps_ok(n: nat, maps: Seq<HashMap<usize, usize>>, gs: Seq<Graph>, srcs: Seq<usize>) -> bool {
    &&& maps.len() == gs.len()
    &&& srcs.len() == gs.len()
    &&& forall|i: int, x: usize| 0 <= i < maps.len() ==> (#[trigger] maps[i]@.dom().contains(x) <==> gs[i].reaches(srcs[i], x))
    &&& forall|i: int, x: usize|
        0 <= i < maps.len() && #[trigger] maps[i]@.dom().contains(x) ==> x < n && gs[i].dist(srcs[i], x) == Some(maps[i]@[x] as nat)
}

/// The sum of the distances of `c`, when every source reaches it.
fn sum_of(maps: &Vec<HashMap<usize, usize>>, c: usize, Ghost(n): Ghost<nat>, Ghost(gs): Ghost<Seq<Graph>>, Ghost(srcs): Ghost<Seq<usize>>) -> (r: Option<u128>)
    requires
        maps_ok(n, maps@, gs, srcs),
    ensures
        r is Some <==> meets(gs, srcs, c),
        r matches Some(t) ==> t == score(gs, srcs, c, gs.len()),
{
    let mut t: u128 = 0;
    let mut i: usize = 0;
    while i < maps.len()
        invariant
            maps_ok(n, maps@, gs, srcs),
            i <= maps@.len(),
            t == score(gs, srcs, c, i as nat),
            t <= i * (u64::MAX as int),
            forall|j: int| 0 <= j < i ==> (#[trigger] gs[j]).reaches(srcs[j], c),
        decreases maps@.len() - i,
    {
        match maps[i].get(&c) {
            None => {
                assert(!maps@[i as int]@.dom().contains(c));
                assert(!gs[i as int].reaches(srcs[i as int], c));
                return None;
            },
            Some(x) => {
                proof {
                    assert(maps@[i as int]@.dom().contains(c));
                    assert(i * (u64::MAX as int) + (u64::MAX as int) == (i + 1) * (u64::MAX as int)) by (nonlinear_arith);
                    assert((i + 1) * (u64::MAX as int) <= (u64::MAX as int) * (u64::MAX as int)) by (nonlinear_arith)
                        requires
                            i + 1 <= u64::MAX,
                    ;
                    assert((u64::MAX as int) * (u64::MAX as int) <= u128::MAX) by (nonlinear_arith);
                }
                t = t + (*x as u128);
            },
        }
        i += 1;
    }
    Some(t)
}

/// Immediate post-dominator of `entry` within `universe`, approximated as the
/// nearest reconvergence point: the block (other than entry) reachable from
/// ALL of entry's in-universe successors with the smallest total distance.
/// A direct successor that some way passes by is a branch, never the merge.
pub fn immediate_postdom(
    cfg: &Cfg,
    results: &[BlockResult],
    universe: &HashSet<usize>,
    entry: usize,
    group_owned: &HashSet<usize>,
    stmt_counts: &[usize],
    body_group_of: &HashMap<usize, usize>,
    entry_group: Option<usize>,
    terminators: &HashSet<usize>,
    abrupt_only: &HashSet<usize>,
    final_writers: &HashSet<usize>,
) -> (r: Option<usize>)
    requires
        cfg.wf(),
        entry < cfg.n(),
    ensures
        merge_is(
            *cfg,
            MergeFacts {
                results: results@,
                universe: universe@,
                group_owned: group_owned@,
                stmt_counts: stmt_counts@,
                body_group_of: body_group_of@,
                entry_group,
                terminators: terminators@,
                abrupt_only: abrupt_only@,
                final_writers: final_writers@,
            },
            entry,
            r,
        ),
        r == merge_of(
            *cfg,
            MergeFacts {
                results: results@,
                universe: universe@,
                group_owned: group_owned@,
                stmt_counts: stmt_counts@,
                body_group_of: body_group_of@,
                entry_group,
                terminators: terminators@,
                abrupt_only: abrupt_only@,
                final_writers: final_writers@,
            },
            entry,
        ),
        r matches Some(c) ==> c < cfg.n(),
{
    let r = find_merge(
        cfg,
        results,
        universe,
        entry,
        group_owned,
        stmt_counts,
        body_group_of,
        entry_group,
        terminators,
        abrupt_only,
        final_writers,
    );
    proof {
        let m = MergeFacts {
            results: results@,
            universe: universe@,
            group_owned: group_owned@,
            stmt_counts: stmt_counts@,
            body_group_of: body_group_of@,
            entry_group,
            terminators: terminators@,
            abrupt_only: abrupt_only@,
            final_writers: final_writers@,
        };
        law_merge_unique(*cfg, m, entry, r, merge_of(*cfg, m, entry));
    }
    r
}

/// The merge of `entry`.
pub open spec fn merge_of(cfg: Cfg, m: MergeFacts, entry: usize) -> Option<usize> {
    choose|r: Option<usize>| #[trigger] merge_is(cfg, m, entry, r)
}

fn find_merge(
    cfg: &Cfg,
    results: &[BlockResult],
    universe: &HashSet<usize>,
    entry: usize,
    group_owned: &HashSet<usize>,
    stmt_counts: &[usize],
    body_group_of: &HashMap<usize, usize>,
    entry_group: Option<usize>,
    terminators: &HashSet<usize>,
    abrupt_only: &HashSet<usize>,
    final_writers: &HashSet<usize>,
) -> (r: Option<usize>)
    requires
        cfg.wf(),
        entry < cfg.n(),
    ensures
        merge_is(
            *cfg,
            MergeFacts {
                results: results@,
                universe: universe@,
                group_owned: group_owned@,
                stmt_counts: stmt_counts@,
                body_group_of: body_group_of@,
                entry_group,
                terminators: terminators@,
                abrupt_only: abrupt_only@,
                final_writers: final_writers@,
            },
            entry,
            r,
        ),
        r matches Some(c) ==> c < cfg.n(),
{
    let succs = keep_in(&cfg.blocks[entry].succ, universe);
    assert forall|i: int| 0 <= i < succs@.len() implies #[trigger] succs@[i] < cfg.n() by {
        assert(succs@.contains(succs@[i]));
    }
    if succs.len() < 2 {
        return None;
    }
    let n: usize = cfg.blocks.len();
    let mut all_but_entry: HashSet<usize> = HashSet::new();
    let mut x: usize = 0;
    while x < n
        invariant
            x <= n,
            n == cfg.n(),
            forall|y: usize| #[trigger] all_but_entry@.contains(y) <==> y < x && y != entry,
        decreases n - x,
    {
        if x != entry {
            all_but_entry.insert(x);
        }
        x += 1;
    }
    let br = Branch {
        cfg,
        results,
        universe,
        entry,
        group_owned,
        stmt_counts,
        body_group_of,
        entry_group,
        terminators,
        abrupt_only,
        final_writers,
        all_but_entry,
    };
    let ghost m = br.facts();
    let ghost gs = branch_flows(*cfg, m, entry, succs@);
    let ghost hs = own_flows(*cfg, m, entry, succs@);
    let mut inside = copy_set(universe);
    inside.remove(&entry);
    assert(inside@ =~= universe@.remove(entry));
    let mut maps: Vec<HashMap<usize, usize>> = Vec::new();
    let mut own: Vec<HashMap<usize, usize>> = Vec::new();
    let mut i: usize = 0;
    while i < succs.len()
        invariant
            br.wf(),
            br.cfg == cfg,
            n == cfg.n(),
            m.universe == universe@,
            inside@ == universe@.remove(entry),
            gs == branch_flows(*cfg, m, entry, succs@),
            hs == own_flows(*cfg, m, entry, succs@),
            i <= succs@.len(),
            forall|i: int| 0 <= i < succs@.len() ==> #[trigger] succs@[i] < cfg.n(),
            maps_ok(n as nat, maps@, gs.take(i as int), succs@.take(i as int)),
            maps_ok(n as nat, own@, hs.take(i as int), succs@.take(i as int)),
        decreases succs@.len() - i,
    {
        let ghost maps0 = maps@;
        let ghost own0 = own@;
        let d = distances(cfg, succs[i], &inside, n);
        let mut apart = copy_set(&inside);
        let mut j: usize = 0;
        while j < succs.len()
            invariant
                j <= succs@.len(),
                i < succs@.len(),
                forall|x: usize| #[trigger] apart@.contains(x) <==> inside@.contains(x) && !exists|k: int| 0 <= k < j && k != i && #[trigger] succs@[k] == x,
            decreases succs@.len() - j,
        {
            if j != i {
                apart.remove(&succs[j]);
            }
            assert forall|x: usize| #[trigger] apart@.contains(x) <==> inside@.contains(x) && !exists|k: int| 0 <= k < j + 1 && k != i && #[trigger] succs@[k] == x by {
                if exists|k: int| 0 <= k < j && k != i && #[trigger] succs@[k] == x {
                    let k = choose|k: int| 0 <= k < j && k != i && #[trigger] succs@[k] == x;
                    assert(succs@[k] == x);
                }
                if j != i && x == succs@[j as int] {
                    assert(succs@[j as int] == x);
                }
            }
            j += 1;
        }
        assert(apart@ =~= universe@.remove(entry).difference(siblings(succs@, i as int)));
        let e = distances(cfg, succs[i], &apart, n);
        let ghost dv = d@;
        let ghost ev = e@;
        maps.push(d);
        own.push(e);
        proof {
            let s = succs@[i as int];
            assert forall|x: usize| #[trigger] dv.dom().contains(x) implies gs[i as int].dist(s, x) == Some(dv[x] as nat) by {
                gs[i as int].lemma_dist(s, x, dv[x] as nat);
            }
            assert forall|x: usize| #[trigger] ev.dom().contains(x) implies hs[i as int].dist(s, x) == Some(ev[x] as nat) by {
                hs[i as int].lemma_dist(s, x, ev[x] as nat);
            }
            assert(maps@.drop_last() =~= maps0);
            assert(own@.drop_last() =~= own0);
            lemma_maps_push(n as nat, maps0, maps@, gs, succs@, i as int);
            lemma_maps_push(n as nat, own0, own@, hs, succs@, i as int);
        }
        i += 1;
    }
    proof {
        assert(gs.take(i as int) =~= gs);
        assert(hs.take(i as int) =~= hs);
        assert(succs@.take(i as int) =~= succs@);
    }
    let ghost pok = plain_ok(*cfg, m, entry, succs@);
    let mut best: Option<(u128, usize)> = None;
    let mut dropped = false;
    let mut c: usize = 0;
    while c < n
        invariant
            br.wf(),
            br.cfg == cfg,
            br.entry == entry,
            m == br.facts(),
            m.universe == universe@,
            n == cfg.n(),
            c <= n,
            gs == branch_flows(*cfg, m, entry, succs@),
            succs@.len() >= 2,
            pok == plain_ok(*cfg, m, entry, succs@),
            maps_ok(n as nat, maps@, gs, succs@),
            forall|i: int| 0 <= i < succs@.len() ==> #[trigger] succs@[i] < cfg.n(),
            dropped <==> exists|x: usize| #[trigger] gs[0].reaches(succs@[0], x) && x < c && x != entry && rejected(*cfg, m, entry, succs@, x),
            best is None ==> forall|x: usize| x < c && #[trigger] meets(gs, succs@, x) ==> !pok(x),
            best matches Some(b) ==> b.1 < c && pok(b.1) && meets(gs, succs@, b.1) && b.0 == score(gs, succs@, b.1, gs.len())
                && forall|x: usize| x < c && pok(x) && #[trigger] meets(gs, succs@, x) ==> no_worse(*cfg, gs, succs@, b.1, x),
        decreases n - c,
    {
        if maps[0].contains_key(&c) && c != entry {
            assert(maps@[0]@.dom().contains(c));
            assert(gs[0].reaches(succs@[0], c));
            if br.is_rejected(&succs, c) {
                dropped = true;
            } else {
                assert(pok(c));
                if let Some(t) = sum_of(&maps, c, Ghost(n as nat), Ghost(gs), Ghost(succs@)) {
                    let better = match best {
                        None => true,
                        Some((bt, bc)) => t < bt || (t == bt && cfg.blocks[c].start < cfg.blocks[bc].start),
                    };
                    if better {
                        best = Some((t, c));
                    }
                }
            }
        } else {
            proof {
                if meets(gs, succs@, c) {
                    assert(gs[0].reaches(succs@[0], c));
                    assert(maps@[0]@.dom().contains(c));
                }
            }
        }
        c += 1;
    }
    proof {
        cfg.lemma_flow_closed(m.universe.remove(entry).complement());
        assert forall|x: usize| #[trigger] gs[0].reaches(succs@[0], x) implies x < n by {
            gs[0].lemma_reach_nodes(succs@[0], x);
        }
        assert(dropped == any_rejected(*cfg, m, entry, succs@)) by {
            if any_rejected(*cfg, m, entry, succs@) {
                let x = choose|x: usize| #[trigger] cfg.within(m.universe.remove(entry)).reaches(succs@[0], x) && x != entry && rejected(*cfg, m, entry, succs@, x);
                assert(gs[0].reaches(succs@[0], x));
            }
            if dropped {
                let x = choose|x: usize| #[trigger] gs[0].reaches(succs@[0], x) && x < n && x != entry && rejected(*cfg, m, entry, succs@, x);
                assert(cfg.within(m.universe.remove(entry)).reaches(succs@[0], x));
            }
        }
    }
    let (bt, bc) = match best {
        None => {
            assert forall|c: usize| !#[trigger] nearest(*cfg, gs, succs@, pok, c) by {
                assert(meets(gs, succs@, c) ==> c >= n || !pok(c));
            }
            return None;
        },
        Some(b) => b,
    };
    assert(nearest(*cfg, gs, succs@, pok, bc));
    if !dropped || bt > 8 {
        return Some(bc);
    }
    let ghost bok = beyond_ok(entry, succs@);
    let mut best2: Option<(u128, usize)> = None;
    c = 0;
    while c < n
        invariant
            n == cfg.n(),
            c <= n,
            succs@.len() >= 2,
            hs.len() == succs@.len(),
            bok == beyond_ok(entry, succs@),
            maps_ok(n as nat, own@, hs, succs@),
            best2 is None ==> forall|x: usize| x < c && #[trigger] meets(hs, succs@, x) ==> !bok(x),
            best2 matches Some(b) ==> b.1 < c && bok(b.1) && meets(hs, succs@, b.1) && b.0 == score(hs, succs@, b.1, hs.len())
                && forall|x: usize| x < c && bok(x) && #[trigger] meets(hs, succs@, x) ==> no_worse(*cfg, hs, succs@, b.1, x),
        decreases n - c,
    {
        if c != entry && !list_has(&succs, c) {
            assert(bok(c));
            if let Some(t) = sum_of(&own, c, Ghost(n as nat), Ghost(hs), Ghost(succs@)) {
                let better = match best2 {
                    None => true,
                    Some((bt, bc)) => t < bt || (t == bt && cfg.blocks[c].start < cfg.blocks[bc].start),
                };
                if better {
                    best2 = Some((t, c));
                }
            }
        }
        c += 1;
    }
    proof {
        assert forall|d: usize| #[trigger] nearest(*cfg, hs, succs@, bok, d) implies best2 is Some && (best2->0).1 == d by {
            assert(meets(hs, succs@, d));
            if best2 is Some {
                assert(nearest(*cfg, hs, succs@, bok, (best2->0).1));
                law_nearest_unique(*cfg, hs, succs@, bok, (best2->0).1, d);
            }
        }
    }
    if let Some((t, d)) = best2 {
        assert(nearest(*cfg, hs, succs@, bok, d));
        if t <= 8 {
            return Some(d);
        }
    }
    Some(bc)
}

proof fn lemma_maps_push(n: nat, maps0: Seq<HashMap<usize, usize>>, maps: Seq<HashMap<usize, usize>>, gs: Seq<Graph>, srcs: Seq<usize>, i: int)
    requires
        0 <= i < gs.len(),
        gs.len() == srcs.len(),
        maps_ok(n, maps0, gs.take(i), srcs.take(i)),
        maps.len() == i + 1,
        maps.drop_last() == maps0,
        forall|x: usize| #[trigger] maps[i]@.dom().contains(x) <==> gs[i].reaches(srcs[i], x),
        forall|x: usize| #[trigger] maps[i]@.dom().contains(x) ==> x < n && gs[i].dist(srcs[i], x) == Some(maps[i]@[x] as nat),
    ensures
        maps_ok(n, maps, gs.take(i + 1), srcs.take(i + 1)),
{
    assert forall|j: int, x: usize| 0 <= j < maps.len() implies (#[trigger] maps[j]@.dom().contains(x) <==> gs.take(i + 1)[j].reaches(srcs.take(i + 1)[j], x)) by {
        if j < i {
            assert(maps0[j] == maps[j]);
            assert(maps0[j]@.dom().contains(x) <==> gs.take(i)[j].reaches(srcs.take(i)[j], x));
        }
    }
    assert forall|j: int, x: usize| 0 <= j < maps.len() && #[trigger] maps[j]@.dom().contains(x) implies x < n && gs.take(i + 1)[j].dist(srcs.take(i + 1)[j], x) == Some(maps[j]@[x] as nat) by {
        if j < i {
            assert(maps0[j] == maps[j]);
            assert(maps0[j]@.dom().contains(x));
        }
    }
}

/// The nearest block that passes `ok`, if any does.
pub open spec fn nearest_of(cfg: Cfg, gs: Seq<Graph>, srcs: Seq<usize>, ok: spec_fn(usize) -> bool) -> Option<usize> {
    if exists|c: usize| #[trigger] nearest(cfg, gs, srcs, ok, c) {
        Some(choose|c: usize| #[trigger] nearest(cfg, gs, srcs, ok, c))
    } else {
        None
    }
}

fn pick_nearest(
    cfg: &Cfg,
    maps: &Vec<HashMap<usize, usize>>,
    ok: &Vec<bool>,
    Ghost(gs): Ghost<Seq<Graph>>,
    Ghost(srcs): Ghost<Seq<usize>>,
    Ghost(f): Ghost<spec_fn(usize) -> bool>,
) -> (r: Option<usize>)
    requires
        maps_ok(cfg.n(), maps@, gs, srcs),
        ok@.len() == cfg.n(),
        forall|c: usize| c < cfg.n() ==> #[trigger] ok@[c as int] == f(c),
    ensures
        r == nearest_of(*cfg, gs, srcs, f),
        r matches Some(c) ==> c < cfg.n(),
{
    let n: usize = cfg.blocks.len();
    let mut best: Option<(u128, usize)> = None;
    let mut c: usize = 0;
    while c < n
        invariant
            n == cfg.n(),
            c <= n,
            maps_ok(n as nat, maps@, gs, srcs),
            ok@.len() == n,
            forall|c: usize| c < n ==> #[trigger] ok@[c as int] == f(c),
            best is None ==> forall|x: usize| x < c && #[trigger] meets(gs, srcs, x) ==> !f(x),
            best matches Some(b) ==> b.1 < c && f(b.1) && meets(gs, srcs, b.1) && b.0 == score(gs, srcs, b.1, gs.len())
                && forall|x: usize| x < c && f(x) && #[trigger] meets(gs, srcs, x) ==> no_worse(*cfg, gs, srcs, b.1, x),
        decreases n - c,
    {
        if ok[c] {
            if let Some(t) = sum_of(maps, c, Ghost(n as nat), Ghost(gs), Ghost(srcs)) {
                let better = match best {
                    None => true,
                    Some((bt, bc)) => t < bt || (t == bt && cfg.blocks[c].start < cfg.blocks[bc].start),
                };
                if better {
                    best = Some((t, c));
                }
            }
        }
        c += 1;
    }
    proof {
        assert forall|d: usize| #[trigger] nearest(*cfg, gs, srcs, f, d) implies best is Some && (best->0).1 == d by {
            assert(meets(gs, srcs, d));
            if best is Some {
                assert(nearest(*cfg, gs, srcs, f, (best->0).1));
                law_nearest_unique(*cfg, gs, srcs, f, (best->0).1, d);
            }
        }
        if best is Some {
            assert(nearest(*cfg, gs, srcs, f, (best->0).1));
        }
    }
    match best {
        Some((t, d)) => Some(d),
        None => None,
    }
}

/// The same flow for each of `k` sources.
pub open spec fn repeated(g: Graph, k: nat) -> Seq<Graph> {
    Seq::new(k, |i: int| g)
}

/// The block nearest to all of `srcs` on ways inside `allowed`, other than `not`.
pub(crate) fn confluence(cfg: &Cfg, srcs: &Vec<usize>, allowed: &HashSet<usize>, not: Option<usize>) -> (r: Option<usize>)
    requires
        cfg.wf(),
        forall|i: int| 0 <= i < srcs@.len() ==> #[trigger] srcs@[i] < cfg.n(),
    ensures
        r == nearest_of(
            *cfg,
            repeated(cfg.within(allowed@), srcs@.len()),
            srcs@,
            |c: usize| not != Some(c),
        ),
        r matches Some(c) ==> c < cfg.n(),
{
    let n: usize = cfg.blocks.len();
    let ghost g = cfg.within(allowed@);
    let ghost gs = repeated(g, srcs@.len());
    let ghost f = |c: usize| not != Some(c);
    let mut maps: Vec<HashMap<usize, usize>> = Vec::new();
    let mut i: usize = 0;
    while i < srcs.len()
        invariant
            cfg.wf(),
            n == cfg.n(),
            g == cfg.within(allowed@),
            gs == repeated(g, srcs@.len()),
            i <= srcs@.len(),
            forall|i: int| 0 <= i < srcs@.len() ==> #[trigger] srcs@[i] < cfg.n(),
            maps_ok(n as nat, maps@, gs.take(i as int), srcs@.take(i as int)),
        decreases srcs@.len() - i,
    {
        let ghost maps0 = maps@;
        let d = distances(cfg, srcs[i], allowed, n);
        let ghost dv = d@;
        maps.push(d);
        proof {
            let s = srcs@[i as int];
            assert forall|x: usize| #[trigger] dv.dom().contains(x) implies gs[i as int].dist(s, x) == Some(dv[x] as nat) by {
                g.lemma_dist(s, x, dv[x] as nat);
            }
            assert(maps@.drop_last() =~= maps0);
            lemma_maps_push(n as nat, maps0, maps@, gs, srcs@, i as int);
        }
        i += 1;
    }
    let mut ok: Vec<bool> = Vec::new();
    let mut c: usize = 0;
    while c < n
        invariant
            c <= n,
            ok@.len() == c,
            f == (|c: usize| not != Some(c)),
            forall|x: usize| x < c ==> #[trigger] ok@[x as int] == f(x),
        decreases n - c,
    {
        let skip = match not {
            Some(x) => x == c,
            None => false,
        };
        ok.push(!skip);
        c += 1;
    }
    assert(gs.take(i as int) =~= gs);
    assert(srcs@.take(i as int) =~= srcs@);
    pick_nearest(cfg, &maps, &ok, Ghost(gs), Ghost(srcs@), Ghost(f))
}

} // verus!
