//! Reachability with a work budget.

use std::collections::{HashMap, HashSet};

use vstd::prelude::*;

use crate::cfg::Cfg;
use crate::structure::graph;
use crate::structure::graph::Graph;

verus! {

broadcast use vstd::std_specs::hash::group_hash_axioms;

/// The queue and the seen set after offering `list` from position `k` on.
pub open spec fn offered(list: Seq<usize>, k: nat, bar: Set<usize>, queue: Seq<usize>, seen: Set<usize>) -> (Seq<usize>, Set<usize>)
    decreases list.len() - k,
{
    if k >= list.len() {
        (queue, seen)
    } else {
        let s = list[k as int];
        if bar.contains(s) || seen.contains(s) {
            offered(list, (k + 1) as nat, bar, queue, seen)
        } else {
            offered(list, (k + 1) as nat, bar, queue.push(s), seen.insert(s))
        }
    }
}

/// A breadth-first search that has `queue` ahead meets an edge to `to` before
/// it has expanded more than `budget` nodes.
pub open spec fn finds(g: Graph, to: usize, queue: Seq<usize>, seen: Set<usize>, budget: nat) -> bool
    decreases budget,
{
    if queue.len() == 0 || budget == 0 {
        false
    } else {
        let list = g.adj[queue[0] as int];
        if list.contains(to) {
            true
        } else {
            let (q, s) = offered(list, 0, g.bar, queue.skip(1), seen);
            finds(g, to, q, s, (budget - 1) as nat)
        }
    }
}

/// `to` is `from`, or the search from `from` meets an edge to it.
pub open spec fn reached(g: Graph, from: usize, to: usize, budget: nat) -> bool {
    from == to || finds(g, to, seq![from], Set::empty().insert(from), budget)
}

impl Cfg {
    /// Successor lists with the exceptional successors behind the normal ones.
    pub open spec fn adj_exc(self, exc: Map<usize, Seq<usize>>) -> Seq<Seq<usize>> {
        Seq::new(
            self.n(),
            |i: int|
                if exc.dom().contains(i as usize) {
                    self.blocks@[i].succ@ + exc[i as usize]
                } else {
                    self.blocks@[i].succ@
                },
        )
    }

    /// Normal and exceptional flow that never enters `bar`.
    pub open spec fn flow_exc(self, exc: Map<usize, Seq<usize>>, bar: Set<usize>) -> Graph {
        Graph { adj: self.adj_exc(exc), bar }
    }
}

/// The lists of a map of lists.
pub open spec fn lists_of(m: Map<usize, Vec<usize>>) -> Map<usize, Seq<usize>> {
    m.map_values(|v: Vec<usize>| v@)
}

/// The exceptional successors of every block are blocks.
pub open spec fn exc_ok(n: nat, exc: Map<usize, Seq<usize>>) -> bool {
    forall|b: usize, k: int|
        exc.dom().contains(b) && 0 <= k < exc[b].len() ==> #[trigger] exc[b][k] < n
}

proof fn lemma_offered(list: Seq<usize>, k: nat, bar: Set<usize>, queue: Seq<usize>, seen: Set<usize>)
    requires
        k <= list.len(),
    ensures
        seen.subset_of(offered(list, k, bar, queue, seen).1),
        forall|x: usize|
            #[trigger] offered(list, k, bar, queue, seen).1.contains(x) <==> seen.contains(x) || (
            !bar.contains(x) && list.skip(k as int).contains(x)),
        forall|x: usize|
            #[trigger] offered(list, k, bar, queue, seen).0.contains(x) <==> queue.contains(x) || (
            offered(list, k, bar, queue, seen).1.contains(x) && !seen.contains(x)),
    decreases list.len() - k,
{
    let (q, s) = offered(list, k, bar, queue, seen);
    if k < list.len() {
        let t = list[k as int];
        let rest = list.skip((k + 1) as int);
        let here = list.skip(k as int);
        assert forall|x: usize| #[trigger] here.contains(x) <==> x == t || rest.contains(x) by {
            assert(here[0] == t);
            if rest.contains(x) {
                let i = choose|i: int| 0 <= i < rest.len() && rest[i] == x;
                assert(here[i + 1] == x);
            }
            if here.contains(x) && x != t {
                let i = choose|i: int| 0 <= i < here.len() && here[i] == x;
                assert(rest[i - 1] == x);
            }
        }
        if bar.contains(t) || seen.contains(t) {
            lemma_offered(list, (k + 1) as nat, bar, queue, seen);
        } else {
            lemma_offered(list, (k + 1) as nat, bar, queue.push(t), seen.insert(t));
            assert forall|x: usize| #[trigger] queue.push(t).contains(x) <==> queue.contains(x) || x == t by {
                assert(queue.push(t)[queue.len() as int] == t);
                if queue.contains(x) {
                    let i = choose|i: int| 0 <= i < queue.len() && queue[i] == x;
                    assert(queue.push(t)[i] == x);
                }
                if queue.push(t).contains(x) && x != t {
                    let i = choose|i: int| 0 <= i < queue.push(t).len() && queue.push(t)[i] == x;
                    assert(queue[i] == x);
                }
            }
        }
    } else {
        assert(list.skip(k as int).len() == 0);
    }
}

/// Length bookkeeping: what enters the queue leaves the unseen ones.
proof fn lemma_offered_len(n: nat, list: Seq<usize>, k: nat, bar: Set<usize>, queue: Seq<usize>, seen: Set<usize>)
    requires
        n <= usize::MAX,
        forall|i: int| 0 <= i < list.len() ==> #[trigger] list[i] < n,
    ensures
        offered(list, k, bar, queue, seen).0.len() + graph::unseen(n, offered(list, k, bar, queue, seen).1)
            == queue.len() + graph::unseen(n, seen),
    decreases list.len() - k,
{
    if k < list.len() {
        let t = list[k as int];
        if bar.contains(t) || seen.contains(t) {
            lemma_offered_len(n, list, (k + 1) as nat, bar, queue, seen);
        } else {
            graph::lemma_unseen_insert(n, seen, t);
            assert(list[k as int] < n);
            lemma_offered_len(n, list, (k + 1) as nat, bar, queue.push(t), seen.insert(t));
        }
    }
}

spec fn edge_to(g: Graph, from: usize, to: usize) -> bool {
    exists|x: usize| #[trigger] g.reaches(from, x) && x < g.adj.len() && g.adj[x as int].contains(to)
}

proof fn lemma_finds(g: Graph, from: usize, to: usize, queue: Seq<usize>, seen: Set<usize>, budget: nat)
    requires
        g.closed(),
        g.adj.len() <= usize::MAX,
        from < g.adj.len(),
        seen.contains(from),
        forall|x: usize| #[trigger] seen.contains(x) ==> x < g.adj.len() && g.reaches(from, x),
        forall|i: int| 0 <= i < queue.len() ==> #[trigger] seen.contains(queue[i]),
        forall|x: usize, y: usize| seen.contains(x) && !queue.contains(x) && #[trigger] g.edge(x, y) ==> seen.contains(y),
        forall|x: usize| #[trigger] seen.contains(x) && !queue.contains(x) ==> !g.adj[x as int].contains(to),
    ensures
        finds(g, to, queue, seen, budget) ==> edge_to(g, from, to),
        budget >= queue.len() + graph::unseen(g.adj.len(), seen) && edge_to(g, from, to) ==> finds(g, to, queue, seen, budget),
    decreases budget,
{
    if queue.len() == 0 {
        if edge_to(g, from, to) {
            let x = choose|x: usize| #[trigger] g.reaches(from, x) && x < g.adj.len() && g.adj[x as int].contains(to);
            g.lemma_closed_set(from, seen, x);
        }
    } else if budget > 0 {
        let b = queue[0];
        assert(seen.contains(queue[0]));
        let list = g.adj[b as int];
        if list.contains(to) {
            assert(g.reaches(from, b) && g.adj[b as int].contains(to));
        } else {
            let rest = queue.skip(1);
            let (q, s) = offered(list, 0, g.bar, rest, seen);
            lemma_offered(list, 0, g.bar, rest, seen);
            assert(list.skip(0) =~= list);
            assert forall|i: int| 0 <= i < list.len() implies #[trigger] list[i] < g.adj.len() by {
                assert(g.adj[b as int][i] < g.adj.len());
            }
            lemma_offered_len(g.adj.len(), list, 0, g.bar, rest, seen);
            assert forall|x: usize| #[trigger] queue.contains(x) <==> x == b || rest.contains(x) by {
                if rest.contains(x) {
                    let i = choose|i: int| 0 <= i < rest.len() && rest[i] == x;
                    assert(queue[i + 1] == x);
                }
                if queue.contains(x) && x != b {
                    let i = choose|i: int| 0 <= i < queue.len() && queue[i] == x;
                    assert(rest[i - 1] == x);
                }
            }
            assert forall|x: usize| #[trigger] s.contains(x) implies x < g.adj.len() && g.reaches(from, x) by {
                if !seen.contains(x) {
                    assert(list.contains(x));
                    let i = choose|i: int| 0 <= i < list.len() && list[i] == x;
                    assert(g.adj[b as int][i] < g.adj.len());
                    assert(g.edge(b, x));
                    g.lemma_reaches_step(from, b, x);
                }
            }
            assert forall|i: int| 0 <= i < q.len() implies #[trigger] s.contains(q[i]) by {
                assert(q.contains(q[i]));
                if rest.contains(q[i]) {
                    assert(queue.contains(q[i]));
                    let j = choose|j: int| 0 <= j < queue.len() && queue[j] == q[i];
                    assert(seen.contains(queue[j]));
                }
            }
            assert forall|x: usize, y: usize| s.contains(x) && !q.contains(x) && #[trigger] g.edge(x, y) implies s.contains(y) by {
                if x == b {
                } else {
                    assert(seen.contains(x));
                    assert(!queue.contains(x));
                }
            }
            assert forall|x: usize| #[trigger] s.contains(x) && !q.contains(x) implies !g.adj[x as int].contains(to) by {
                if x != b {
                    assert(seen.contains(x));
                    assert(!queue.contains(x));
                }
            }
            lemma_finds(g, from, to, q, s, (budget - 1) as nat);
        }
    }
}

/// With a budget of at least one expansion per block the search finds exactly
/// what can be reached: `to` itself, or a successor of a block that unbarred
/// steps lead to.
pub proof fn law_full_budget(g: Graph, from: usize, to: usize, budget: nat)
    requires
        g.closed(),
        g.adj.len() <= usize::MAX,
        from < g.adj.len(),
        budget >= g.adj.len(),
    ensures
        reached(g, from, to, budget) <==> from == to || exists|x: usize| #[trigger]
            g.reaches(from, x) && x < g.adj.len() && g.adj[x as int].contains(to),
{
    let q = seq![from];
    let s = Set::<usize>::empty().insert(from);
    g.lemma_reaches_self(from);
    assert(q[0] == from);
    assert(q.contains(from));
    graph::lemma_unseen_insert(g.adj.len(), Set::empty(), from);
    graph::lemma_unseen_all(g.adj.len());
    lemma_finds(g, from, to, q, s, budget);
    assert(edge_to(g, from, to) <==> exists|x: usize| #[trigger]
        g.reaches(from, x) && x < g.adj.len() && g.adj[x as int].contains(to));
}

/// A search with any budget only reports what can be reached.
pub proof fn law_budget_sound(g: Graph, from: usize, to: usize, budget: nat)
    requires
        g.closed(),
        g.adj.len() <= usize::MAX,
        from < g.adj.len(),
        reached(g, from, to, budget),
    ensures
        from == to || exists|x: usize| #[trigger]
            g.reaches(from, x) && x < g.adj.len() && g.adj[x as int].contains(to),
{
    let q = seq![from];
    let s = Set::<usize>::empty().insert(from);
    g.lemma_reaches_self(from);
    assert(q[0] == from);
    assert(q.contains(from));
    lemma_finds(g, from, to, q, s, budget);
}

/// Offers `list` to the search: true when it holds `to`, else every unbarred
/// unseen element is queued.
fn offer(list: &Vec<usize>, to: usize, bar: &HashSet<usize>, q: &mut Vec<usize>, seen: &mut HashSet<usize>) -> (r: bool)
    ensures
        r == list@.contains(to),
        !r ==> (final(q)@, final(seen)@) == offered(list@, 0, bar@, old(q)@, old(seen)@),
{
    let ghost q0 = q@;
    let ghost s0 = seen@;
    let mut i: usize = 0;
    while i < list.len()
        invariant
            i <= list@.len(),
            forall|k: int| 0 <= k < i ==> list@[k] != to,
            offered(list@, i as nat, bar@, q@, seen@) == offered(list@, 0, bar@, q0, s0),
        decreases list@.len() - i,
    {
        let s = list[i];
        if s == to {
            return true;
        }
        if !bar.contains(&s) && !seen.contains(&s) {
            seen.insert(s);
            q.push(s);
        }
        i += 1;
    }
    false
}

proof fn lemma_offered_skip(list: Seq<usize>, bar: Set<usize>, head: Seq<usize>, queue: Seq<usize>, seen: Set<usize>, k: nat)
    ensures
        offered(list, k, bar, head + queue, seen).0 == head + offered(list, k, bar, queue, seen).0,
        offered(list, k, bar, head + queue, seen).1 == offered(list, k, bar, queue, seen).1,
    decreases list.len() - k,
{
    if k < list.len() {
        let s = list[k as int];
        if bar.contains(s) || seen.contains(s) {
            lemma_offered_skip(list, bar, head, queue, seen, (k + 1) as nat);
        } else {
            assert((head + queue).push(s) =~= head + queue.push(s));
            lemma_offered_skip(list, bar, head, queue.push(s), seen.insert(s), (k + 1) as nat);
        }
    }
}

proof fn lemma_offered_concat(a: Seq<usize>, b: Seq<usize>, k: nat, bar: Set<usize>, queue: Seq<usize>, seen: Set<usize>)
    requires
        k <= a.len(),
    ensures
        ({
            let (q, s) = offered(a, k, bar, queue, seen);
            offered(a + b, k, bar, queue, seen) == offered(b, 0, bar, q, s)
        }),
    decreases a.len() - k,
{
    if k < a.len() {
        let t = a[k as int];
        assert((a + b)[k as int] == t);
        if bar.contains(t) || seen.contains(t) {
            lemma_offered_concat(a, b, (k + 1) as nat, bar, queue, seen);
        } else {
            lemma_offered_concat(a, b, (k + 1) as nat, bar, queue.push(t), seen.insert(t));
        }
    } else {
        lemma_offered_tail(a, b, 0, bar, queue, seen);
    }
}

proof fn lemma_offered_tail(a: Seq<usize>, b: Seq<usize>, k: nat, bar: Set<usize>, queue: Seq<usize>, seen: Set<usize>)
    requires
        k <= b.len(),
    ensures
        offered(a + b, (a.len() + k) as nat, bar, queue, seen) == offered(b, k, bar, queue, seen),
    decreases b.len() - k,
{
    if k < b.len() {
        let t = b[k as int];
        assert((a + b)[(a.len() + k) as int] == t);
        if bar.contains(t) || seen.contains(t) {
            lemma_offered_tail(a, b, (k + 1) as nat, bar, queue, seen);
        } else {
            lemma_offered_tail(a, b, (k + 1) as nat, bar, queue.push(t), seen.insert(t));
        }
    }
}

/// The budgeted search over normal and exceptional flow.
fn search_to(cfg: &Cfg, exc: &HashMap<usize, Vec<usize>>, from: usize, to: usize, bar: &HashSet<usize>, budget: usize) -> (r: bool)
    requires
        cfg.wf(),
        from < cfg.n(),
        exc_ok(cfg.n(), lists_of(exc@)),
    ensures
        r == finds(cfg.flow_exc(lists_of(exc@), bar@), to, seq![from], Set::empty().insert(from), budget as nat),
{
    let ghost g = cfg.flow_exc(lists_of(exc@), bar@);
    let mut seen: HashSet<usize> = HashSet::new();
    let mut q: Vec<usize> = Vec::new();
    seen.insert(from);
    q.push(from);
    let mut head: usize = 0;
    let mut left: usize = budget;
    proof {
        assert(seen@ =~= Set::empty().insert(from));
        assert(q@.skip(0) =~= seq![from]);
    }
    while head < q.len() && left > 0
        invariant
            cfg.wf(),
            exc_ok(cfg.n(), lists_of(exc@)),
            g == cfg.flow_exc(lists_of(exc@), bar@),
            head <= q@.len(),
            forall|i: int| 0 <= i < q@.len() ==> #[trigger] q@[i] < cfg.n(),
            finds(g, to, q@.skip(head as int), seen@, left as nat) == finds(
                g,
                to,
                seq![from],
                Set::empty().insert(from),
                budget as nat,
            ),
        decreases left,
    {
        let ghost q0 = q@;
        let ghost s0 = seen@;
        let ghost queue = q@.skip(head as int);
        let b = q[head];
        assert(queue[0] == b);
        let ghost list = g.adj[b as int];
        let ghost succ = cfg.blocks@[b as int].succ@;
        head += 1;
        left -= 1;
        let ghost done = q@.take(head as int);
        proof {
            assert(q0 =~= done + queue.skip(1));
            lemma_offered_skip(list, g.bar, done, queue.skip(1), s0, 0);
        }
        if offer(&cfg.blocks[b].succ, to, bar, &mut q, &mut seen) {
            proof {
                assert(succ.contains(to));
                let i = choose|i: int| 0 <= i < succ.len() && succ[i] == to;
                assert(list[i] == to);
            }
            return true;
        }
        let ghost (q1, s1) = (q@, seen@);
        proof {
            lemma_offered_nodes(succ, 0, bar@, q0, s0, cfg.n());
        }
        if let Some(xs) = exc.get(&b) {
            proof {
                assert(list == succ + xs@);
                assert forall|i: int| 0 <= i < xs@.len() implies #[trigger] xs@[i] < cfg.n() by {
                    assert(lists_of(exc@)[b][i] < cfg.n());
                }
            }
            if offer(xs, to, bar, &mut q, &mut seen) {
                proof {
                    let i = choose|i: int| 0 <= i < xs@.len() && xs@[i] == to;
                    assert(list[succ.len() + i] == to);
                }
                return true;
            }
            proof {
                lemma_offered_concat(succ, xs@, 0, bar@, q0, s0);
                lemma_offered_nodes(xs@, 0, bar@, q1, s1, cfg.n());
                assert(!list.contains(to)) by {
                    if list.contains(to) {
                        let i = choose|i: int| 0 <= i < list.len() && list[i] == to;
                        if i < succ.len() {
                            assert(succ[i] == to);
                        } else {
                            assert(xs@[i - succ.len()] == to);
                        }
                    }
                }
            }
        } else {
            assert(list == succ);
        }
        proof {
            assert((q@, seen@) == offered(list, 0, bar@, q0, s0));
            let (q2, s2) = offered(list, 0, g.bar, queue.skip(1), s0);
            assert(q@ == done + q2);
            assert(q@.skip(head as int) =~= q2);
        }
    }
    false
}

proof fn lemma_offered_nodes(list: Seq<usize>, k: nat, bar: Set<usize>, queue: Seq<usize>, seen: Set<usize>, n: nat)
    requires
        forall|i: int| 0 <= i < list.len() ==> #[trigger] list[i] < n,
        forall|i: int| 0 <= i < queue.len() ==> #[trigger] queue[i] < n,
    ensures
        forall|i: int| 0 <= i < offered(list, k, bar, queue, seen).0.len() ==> #[trigger] offered(list, k, bar, queue, seen).0[i] < n,
        queue.len() <= offered(list, k, bar, queue, seen).0.len(),
    decreases list.len() - k,
{
    if k < list.len() {
        let t = list[k as int];
        if bar.contains(t) || seen.contains(t) {
            lemma_offered_nodes(list, (k + 1) as nat, bar, queue, seen, n);
        } else {
            lemma_offered_nodes(list, (k + 1) as nat, bar, queue.push(t), seen.insert(t), n);
        }
    }
}

/// Reachability from `from` to `to` via normal edges, with a work budget.
pub fn can_reach_cfg(cfg: &Cfg, from: usize, to: usize, budget: usize) -> (r: bool)
    requires
        cfg.wf(),
        from < cfg.n(),
    ensures
        r == reached(cfg.flow(Set::empty()), from, to, budget as nat),
{
    if from == to {
        return true;
    }
    let exc: HashMap<usize, Vec<usize>> = HashMap::new();
    let bar: HashSet<usize> = HashSet::new();
    proof {
        assert(bar@ =~= Set::empty());
        assert(cfg.adj_exc(lists_of(exc@)) =~= cfg.adj());
    }
    search_to(cfg, &exc, from, to, &bar, budget)
}

/// A search from `from` that never enters `bar` meets an edge to `to`.
pub(crate) fn flow_finds(cfg: &Cfg, from: usize, to: usize, bar: &HashSet<usize>, budget: usize) -> (r: bool)
    requires
        cfg.wf(),
        from < cfg.n(),
    ensures
        r == finds(cfg.flow(bar@), to, seq![from], Set::empty().insert(from), budget as nat),
{
    let exc: HashMap<usize, Vec<usize>> = HashMap::new();
    proof {
        assert(cfg.adj_exc(lists_of(exc@)) =~= cfg.adj());
    }
    search_to(cfg, &exc, from, to, bar, budget)
}

/// True if `to` is reachable from `from` without stepping on `avoid`.
pub fn can_reach_avoiding(
    cfg: &Cfg,
    exc_succ: &HashMap<usize, Vec<usize>>,
    from: usize,
    to: usize,
    avoid: usize,
    budget: usize,
) -> (r: bool)
    requires
        cfg.wf(),
        from < cfg.n(),
        exc_ok(cfg.n(), lists_of(exc_succ@)),
    ensures
        r == (from == to || (from != avoid && reached(
            cfg.flow_exc(lists_of(exc_succ@), Set::empty().insert(avoid)),
            from,
            to,
            budget as nat,
        ))),
{
    if from == to {
        return true;
    }
    if from == avoid {
        return false;
    }
    let mut bar: HashSet<usize> = HashSet::new();
    bar.insert(avoid);
    assert(bar@ =~= Set::empty().insert(avoid));
    search_to(cfg, exc_succ, from, to, &bar, budget)
}

/// Reachability from `from` to `to` that never steps on barrier blocks (other
/// than `from` itself). Follows normal AND exception successors, so a
/// protected block whose normal exits all return or throw is still seen to
/// loop back through its handler.
pub fn can_reach_cfg_barred(
    cfg: &Cfg,
    exc_succ: &HashMap<usize, Vec<usize>>,
    from: usize,
    to: usize,
    barriers: &HashSet<usize>,
    budget: usize,
) -> (r: bool)
    requires
        cfg.wf(),
        from < cfg.n(),
        exc_ok(cfg.n(), lists_of(exc_succ@)),
    ensures
        r == reached(cfg.flow_exc(lists_of(exc_succ@), barriers@), from, to, budget as nat),
{
    if from == to {
        return true;
    }
    search_to(cfg, exc_succ, from, to, barriers, budget)
}

} // verus!
