//! What the merge of a branch is.

use vstd::prelude::*;

use crate::cfg::Cfg;
use crate::structure::graph::Graph;
use crate::structure::merge_point::{
    beyond_ok, branch_flows, detour, meets, merge_is, nearest, no_worse, own_flows, plain_ok, score, siblings,
    tail_of, Detour, MergeFacts,
};

verus! {

/// The graph `h` has every edge of `g`.
pub open spec fn wider(g: Graph, h: Graph) -> bool {
    forall|a: usize, b: usize| #[trigger] g.edge(a, b) ==> h.edge(a, b)
}

proof fn lemma_wider_ball(g: Graph, h: Graph, from: usize, k: nat, x: usize)
    requires
        wider(g, h),
        g.ball(from, k).contains(x),
    ensures
        h.ball(from, k).contains(x),
    decreases k,
{
    if k > 0 {
        let inner = g.ball(from, (k - 1) as nat);
        if inner.contains(x) {
            lemma_wider_ball(g, h, from, (k - 1) as nat, x);
        } else {
            let y = choose|y: usize| #[trigger] inner.contains(y) && g.edge(y, x);
            lemma_wider_ball(g, h, from, (k - 1) as nat, y);
            assert(h.ball(from, (k - 1) as nat).contains(y));
            assert(h.edge(y, x));
        }
    }
}

proof fn lemma_wider_reaches(g: Graph, h: Graph, from: usize, x: usize)
    requires
        wider(g, h),
        g.reaches(from, x),
    ensures
        h.reaches(from, x),
{
    let k = choose|k: nat| #[trigger] g.ball(from, k).contains(x);
    lemma_wider_ball(g, h, from, k, x);
}

proof fn lemma_first_ball(g: Graph, from: usize, x: usize, k: nat) -> (j: nat)
    requires
        g.ball(from, k).contains(x),
    ensures
        j <= k,
        g.at_dist(from, x, j),
        g.dist(from, x) == Some(j),
    decreases k,
{
    if k > 0 && g.ball(from, (k - 1) as nat).contains(x) {
        lemma_first_ball(g, from, x, (k - 1) as nat)
    } else {
        assert(g.at_dist(from, x, k));
        g.lemma_dist(from, x, k);
        k
    }
}

proof fn lemma_wider_dist(g: Graph, h: Graph, from: usize, x: usize)
    requires
        wider(g, h),
        g.reaches(from, x),
    ensures
        g.dist(from, x) is Some,
        h.dist(from, x) is Some,
        h.dist(from, x)->0 <= g.dist(from, x)->0,
{
    let k = choose|k: nat| #[trigger] g.ball(from, k).contains(x);
    let j = lemma_first_ball(g, from, x, k);
    lemma_wider_ball(g, h, from, j, x);
    let i = lemma_first_ball(h, from, x, j);
}

proof fn lemma_own_narrower(cfg: Cfg, m: MergeFacts, entry: usize, succs: Seq<usize>, i: int)
    requires
        0 <= i < succs.len(),
    ensures
        wider(own_flows(cfg, m, entry, succs)[i], branch_flows(cfg, m, entry, succs)[i]),
{
    let inside = m.universe.remove(entry);
    let g = cfg.within(inside.difference(siblings(succs, i)));
    let h = cfg.within(inside);
    assert forall|a: usize, b: usize| #[trigger] g.edge(a, b) implies h.edge(a, b) by {
        assert(inside.difference(siblings(succs, i)).contains(b));
    }
}

/// The best of the first `k` blocks that pass `ok` and that all sources reach.
pub(crate) proof fn lemma_best(cfg: Cfg, gs: Seq<Graph>, srcs: Seq<usize>, ok: spec_fn(usize) -> bool, k: nat) -> (r: Option<usize>)
    requires
        k <= usize::MAX,
    ensures
        match r {
            None => forall|d: usize| d < k && ok(d) ==> !#[trigger] meets(gs, srcs, d),
            Some(c) => {
                &&& c < k
                &&& ok(c)
                &&& meets(gs, srcs, c)
                &&& forall|d: usize| d < k && ok(d) && #[trigger] meets(gs, srcs, d) ==> no_worse(cfg, gs, srcs, c, d)
            },
        },
    decreases k,
{
    if k == 0 {
        None
    } else {
        let x = (k - 1) as usize;
        let before = lemma_best(cfg, gs, srcs, ok, (k - 1) as nat);
        if !(ok(x) && meets(gs, srcs, x)) {
            before
        } else {
            match before {
                None => Some(x),
                Some(c) => if no_worse(cfg, gs, srcs, c, x) {
                    Some(c)
                } else {
                    Some(x)
                },
            }
        }
    }
}

proof fn lemma_kept(v: Seq<usize>, f: spec_fn(usize) -> bool, x: usize)
    requires
        v.contains(x),
        f(x),
    ensures
        v.filter(f).contains(x),
{
    let i = choose|i: int| 0 <= i < v.len() && v[i] == x;
    v.lemma_filter_contains(f, i);
}

proof fn lemma_kept_from(v: Seq<usize>, f: spec_fn(usize) -> bool, k: int)
    requires
        0 <= k < v.filter(f).len(),
    ensures
        v.contains(v.filter(f)[k]),
        f(v.filter(f)[k]),
    decreases v.len(),
{
    reveal(Seq::filter);
    if v.len() > 0 {
        let w = v.drop_last();
        if k < w.filter(f).len() {
            lemma_kept_from(w, f, k);
            let i = choose|i: int| 0 <= i < w.len() && w[i] == w.filter(f)[k];
            assert(v[i] == w[i]);
        } else {
            assert(v[v.len() - 1] == v.last());
        }
    }
}

/// Two places of the list hold what passes.
pub open spec fn two_pass(v: Seq<usize>, f: spec_fn(usize) -> bool) -> bool {
    exists|i: int, j: int| 0 <= i < j < v.len() && f(#[trigger] v[i]) && f(#[trigger] v[j])
}

proof fn lemma_two_kept(v: Seq<usize>, f: spec_fn(usize) -> bool)
    ensures
        v.filter(f).len() >= 2 <==> two_pass(v, f),
    decreases v.len(),
{
    reveal(Seq::filter);
    if v.len() > 0 {
        let w = v.drop_last();
        let e = v.len() - 1;
        lemma_two_kept(w, f);
        if two_pass(w, f) {
            let (i, j) = choose|i: int, j: int| 0 <= i < j < w.len() && f(#[trigger] w[i]) && f(#[trigger] w[j]);
            assert(f(v[i]) && f(v[j]));
        }
        if w.filter(f).len() >= 1 && f(v[e]) {
            lemma_kept_from(w, f, 0);
            let i = choose|i: int| 0 <= i < w.len() && w[i] == w.filter(f)[0];
            assert(f(v[i]) && f(v[e]));
        }
        if two_pass(v, f) && !two_pass(w, f) {
            let (i, j) = choose|i: int, j: int| 0 <= i < j < v.len() && f(#[trigger] v[i]) && f(#[trigger] v[j]);
            assert(w[i] == v[i]);
            if j < e {
                assert(w[j] == v[j]);
            }
            w.lemma_filter_contains(f, i);
        }
    }
}

/// The merge is another block of the method than the branch itself, the
/// branch has two successors in the scope at least, and each of them reaches
/// the merge on a way that stays in the scope and does not come back through
/// the branch.
pub proof fn law_merge_reached(cfg: Cfg, m: MergeFacts, entry: usize, c: usize)
    requires
        merge_is(cfg, m, entry, Some(c)),
    ensures
        c < cfg.n(),
        c != entry,
        two_pass(cfg.succ(entry), |x: usize| m.universe.contains(x)),
        forall|s: usize| #[trigger]
            cfg.succ(entry).contains(s) && m.universe.contains(s) ==> cfg.within(m.universe.remove(entry)).reaches(s, c),
{
    let inside = |x: usize| m.universe.contains(x);
    let succs = cfg.succ(entry).filter(inside);
    let gs = branch_flows(cfg, m, entry, succs);
    let hs = own_flows(cfg, m, entry, succs);
    lemma_two_kept(cfg.succ(entry), inside);
    let b = choose|b: usize| #[trigger] nearest(cfg, gs, succs, plain_ok(cfg, m, entry, succs), b);
    assert forall|s: usize| #[trigger] cfg.succ(entry).contains(s) && m.universe.contains(s) implies cfg.within(
        m.universe.remove(entry),
    ).reaches(s, c) by {
        lemma_kept(cfg.succ(entry), inside, s);
        let i = choose|i: int| 0 <= i < succs.len() && succs[i] == s;
        if nearest(cfg, gs, succs, plain_ok(cfg, m, entry, succs), c) {
            assert(gs[i].reaches(succs[i], c));
        } else {
            assert(hs[i].reaches(succs[i], c));
            lemma_own_narrower(cfg, m, entry, succs, i);
            lemma_wider_reaches(hs[i], gs[i], s, c);
        }
    }
}

/// There is no merge only where the branch has fewer than two successors in
/// the scope, or where every block that all of them reach is one of them: a
/// block further on that all of them reach is not passed over. Nor is any, where
/// the branch is a successor of its own.
pub proof fn law_no_merge(cfg: Cfg, m: MergeFacts, entry: usize, d: usize)
    requires
        merge_is(cfg, m, entry, None),
        cfg.n() <= usize::MAX,
        two_pass(cfg.succ(entry), |x: usize| m.universe.contains(x)),
        d < cfg.n(),
        d != entry,
        forall|s: usize| #[trigger]
            cfg.succ(entry).contains(s) && m.universe.contains(s) ==> cfg.within(m.universe.remove(entry)).reaches(s, d),
    ensures
        cfg.succ(entry).contains(d),
        m.universe.contains(d),
        !cfg.succ(entry).contains(entry),
{
    let inside = |x: usize| m.universe.contains(x);
    let succs = cfg.succ(entry).filter(inside);
    let gs = branch_flows(cfg, m, entry, succs);
    let ok = plain_ok(cfg, m, entry, succs);
    lemma_two_kept(cfg.succ(entry), inside);
    lemma_meets(cfg, m, entry, d);
    if succs.contains(d) {
        let k = choose|k: int| 0 <= k < succs.len() && succs[k] == d;
        lemma_kept_from(cfg.succ(entry), inside, k);
    }
    let best = lemma_best(cfg, gs, succs, ok, cfg.n());
    if best is Some {
        assert(nearest(cfg, gs, succs, ok, best->0));
    }
    assert(!ok(d));
}

proof fn lemma_meets(cfg: Cfg, m: MergeFacts, entry: usize, d: usize)
    requires
        forall|s: usize| #[trigger]
            cfg.succ(entry).contains(s) && m.universe.contains(s) ==> cfg.within(m.universe.remove(entry)).reaches(s, d),
    ensures
        ({
            let succs = cfg.succ(entry).filter(|x: usize| m.universe.contains(x));
            meets(branch_flows(cfg, m, entry, succs), succs, d)
        }),
{
    let inside = |x: usize| m.universe.contains(x);
    let succs = cfg.succ(entry).filter(inside);
    let gs = branch_flows(cfg, m, entry, succs);
    assert forall|i: int| 0 <= i < gs.len() implies (#[trigger] gs[i]).reaches(succs[i], d) by {
        lemma_kept_from(cfg.succ(entry), inside, i);
    }
}

/// The steps from both sides of a branch to `x`.
pub open spec fn both_ways(g: Graph, a: usize, b: usize, x: usize) -> nat {
    g.dist(a, x)->0 + g.dist(b, x)->0
}

proof fn lemma_two_scores(gs: Seq<Graph>, srcs: Seq<usize>, x: usize)
    requires
        gs.len() == 2,
        srcs.len() == 2,
    ensures
        score(gs, srcs, x, 2) == gs[0].dist(srcs[0], x)->0 + gs[1].dist(srcs[1], x)->0,
{
    assert(score(gs, srcs, x, 1) == score(gs, srcs, x, 0) + gs[0].dist(srcs[0], x)->0);
    assert(score(gs, srcs, x, 0) == 0);
}

/// The merge of a branch with two sides is near: no block behind the sides
/// that both reach takes fewer steps in total, unless the merge itself takes
/// eight at most.
pub proof fn law_merge_near(cfg: Cfg, m: MergeFacts, entry: usize, a: usize, b: usize, c: usize, d: usize)
    requires
        merge_is(cfg, m, entry, Some(c)),
        cfg.succ(entry) == seq![a, b],
        m.universe.contains(a),
        m.universe.contains(b),
        d < cfg.n(),
        d != entry,
        d != a,
        d != b,
        cfg.within(m.universe.remove(entry)).reaches(a, d),
        cfg.within(m.universe.remove(entry)).reaches(b, d),
    ensures
        ({
            let g = cfg.within(m.universe.remove(entry));
            both_ways(g, a, b, c) <= both_ways(g, a, b, d) || both_ways(g, a, b, c) <= 8
        }),
{
    let inside = |x: usize| m.universe.contains(x);
    let g = cfg.within(m.universe.remove(entry));
    let succs = cfg.succ(entry).filter(inside);
    assert(succs =~= seq![a, b]) by {
        reveal_with_fuel(Seq::<usize>::filter, 3);
        assert(seq![a, b].drop_last() =~= seq![a]);
        assert(seq![a].drop_last() =~= Seq::<usize>::empty());
    }
    let gs = branch_flows(cfg, m, entry, succs);
    let hs = own_flows(cfg, m, entry, succs);
    let ok = plain_ok(cfg, m, entry, succs);
    lemma_meets(cfg, m, entry, d);
    assert(!succs.contains(d));
    assert(ok(d));
    lemma_two_scores(gs, succs, c);
    lemma_two_scores(gs, succs, d);
    lemma_two_scores(hs, succs, c);
    if nearest(cfg, gs, succs, ok, c) {
        assert(meets(gs, succs, d));
    } else {
        let p = choose|p: usize| #[trigger] nearest(cfg, gs, succs, ok, p);
        let beyond = beyond_ok(entry, succs);
        let q = choose|q: usize| #[trigger] nearest(cfg, hs, succs, beyond, q) && score(hs, succs, q, hs.len()) <= 8;
        assert(meets(hs, succs, q));
        assert(meets(hs, succs, c));
        assert(hs[0].reaches(succs[0], c));
        assert(hs[1].reaches(succs[1], c));
        lemma_own_narrower(cfg, m, entry, succs, 0);
        lemma_own_narrower(cfg, m, entry, succs, 1);
        lemma_wider_dist(hs[0], gs[0], a, c);
        lemma_wider_dist(hs[1], gs[1], b, c);
    }
}

/// A way that runs round `cand` was found only where there is one: it leads
/// from `start` past `cand` to a block that follows `cand` and is no quiet
/// terminator.
pub proof fn law_detour(cfg: Cfg, m: MergeFacts, entry: usize, start: usize, cand: usize)
    requires
        detour(cfg, m, entry, start, cand),
        cfg.wf(),
        start < cfg.n(),
    ensures
        exists|x: usize| #[trigger]
            tail_of(cfg, entry, cand).contains(x) && !m.terminators.contains(x) && x != cand && cfg.flow(
                Set::empty().insert(cand),
            ).reaches(start, x),
{
    let d = Detour {
        start,
        cand,
        tail: tail_of(cfg, entry, cand),
        terminators: m.terminators,
        big: cand < m.stmt_counts.len() && m.stmt_counts[cand as int] >= 8,
    };
    let g = cfg.flow(Set::empty().insert(cand));
    g.lemma_reaches_self(start);
    lemma_found(d, cfg, seq![(start, false)], Set::empty().insert(start), cfg.n());
}

/// What is queued lies on ways round the candidate.
spec fn queued(d: Detour, cfg: Cfg, queue: Seq<(usize, bool)>) -> bool {
    forall|i: int|
        0 <= i < queue.len() ==> (#[trigger] queue[i]).0 < cfg.n() && cfg.flow(Set::empty().insert(d.cand)).reaches(
            d.start,
            queue[i].0,
        )
}

spec fn round(d: Detour, cfg: Cfg, x: usize) -> bool {
    d.tail.contains(x) && !d.terminators.contains(x) && x != d.cand && cfg.flow(Set::empty().insert(d.cand)).reaches(
        d.start,
        x,
    )
}

proof fn lemma_spread_round(d: Detour, cfg: Cfg, b: usize, k: nat, own: bool, queue: Seq<(usize, bool)>, seen: Set<usize>)
    requires
        cfg.wf(),
        b < cfg.n(),
        cfg.flow(Set::empty().insert(d.cand)).reaches(d.start, b),
        queued(d, cfg, queue),
    ensures
        match d.spread(cfg.adj()[b as int], k, own, queue, seen) {
            None => exists|x: usize| #[trigger] round(d, cfg, x),
            Some((q, s)) => queued(d, cfg, q),
        },
    decreases cfg.adj()[b as int].len() - k,
{
    let list = cfg.adj()[b as int];
    let g = cfg.flow(Set::empty().insert(d.cand));
    if k < list.len() {
        let x = list[k as int];
        if x == d.cand || seen.contains(x) {
            lemma_spread_round(d, cfg, b, k + 1, own, queue, seen);
        } else {
            assert(list.contains(x));
            assert(g.edge(b, x));
            g.lemma_reaches_step(d.start, b, x);
            if d.rejoins(own, x) {
                assert(round(d, cfg, x));
            } else {
                cfg.lemma_flow_closed(Set::empty().insert(d.cand));
                assert(x < cfg.n());
                let q = queue.push((x, own));
                assert(queued(d, cfg, q));
                lemma_spread_round(d, cfg, b, k + 1, own, q, seen.insert(x));
            }
        }
    }
}

proof fn lemma_found(d: Detour, cfg: Cfg, queue: Seq<(usize, bool)>, seen: Set<usize>, fuel: nat)
    requires
        cfg.wf(),
        queued(d, cfg, queue),
        d.found(cfg.adj(), queue, seen, fuel),
    ensures
        exists|x: usize| #[trigger] round(d, cfg, x),
    decreases fuel,
{
    let (b, own) = queue[0];
    let rest = queue.skip(1);
    assert(queued(d, cfg, rest)) by {
        assert forall|i: int| 0 <= i < rest.len() implies (#[trigger] rest[i]).0 < cfg.n() && cfg.flow(
            Set::empty().insert(d.cand),
        ).reaches(d.start, rest[i].0) by {
            assert(rest[i] == queue[i + 1]);
        }
    }
    assert(queue[0].0 < cfg.n());
    if b == d.cand {
        lemma_found(d, cfg, rest, seen, (fuel - 1) as nat);
    } else {
        lemma_spread_round(d, cfg, b, 0, d.own(b, own), rest, seen);
        match d.spread(cfg.adj()[b as int], 0, d.own(b, own), rest, seen) {
            None => {},
            Some((q, s)) => {
                lemma_found(d, cfg, q, s, (fuel - 1) as nat);
            },
        }
    }
}

} // verus!
