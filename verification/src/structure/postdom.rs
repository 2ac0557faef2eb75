//! Post-dominators over a sub-graph.

use std::collections::{HashMap, HashSet};

use vstd::prelude::*;

use crate::cfg::Cfg;
use crate::structure::dominators;
use crate::structure::graph::Graph;

verus! {

broadcast use vstd::std_specs::hash::group_hash_axioms;

impl Cfg {
    /// The block ends flow in `universe`: it has no successor, or one outside.
    pub open spec fn leaves(self, universe: Set<usize>, b: usize) -> bool {
        self.succ(b).len() == 0 || exists|k: int|
            0 <= k < self.succ(b).len() && !universe.contains(#[trigger] self.succ(b)[k])
    }

    /// Flow inside `universe` from `a` to `b`, where every block that leaves
    /// the universe also flows to the virtual exit, whose id is the number of blocks.
    pub open spec fn exit_edge(self, universe: Set<usize>, a: usize, b: usize) -> bool {
        &&& universe.contains(a)
        &&& (universe.contains(b) && self.succ(a).contains(b)) || (b == self.n() && self.leaves(universe, a))
    }

    pub open spec fn exit_path(self, universe: Set<usize>, p: Seq<usize>) -> bool {
        p.len() > 0 && forall|i: int|
            0 <= i < p.len() - 1 ==> self.exit_edge(universe, #[trigger] p[i], p[i + 1])
    }

    /// Some path from `b` leads to the virtual exit.
    pub open spec fn exits(self, universe: Set<usize>, b: usize) -> bool {
        exists|p: Seq<usize>| #[trigger] self.exit_path(universe, p) && p[0] == b && p.last() == self.n()
    }

    /// Every path from `b` to the virtual exit visits `a`.
    pub open spec fn post_dominates(self, universe: Set<usize>, a: usize, b: usize) -> bool {
        forall|p: Seq<usize>| #[trigger]
            self.exit_path(universe, p) && p[0] == b && p.last() == self.n() ==> p.contains(a)
    }

    /// `d` is the nearest strict post-dominator of `b`.
    pub open spec fn immediate_post(self, universe: Set<usize>, d: usize, b: usize) -> bool {
        &&& d != b
        &&& self.exits(universe, d)
        &&& self.post_dominates(universe, d, b)
        &&& forall|a: usize|
            a != b && #[trigger] self.post_dominates(universe, a, b) ==> self.post_dominates(universe, a, d)
    }
}

proof fn lemma_reversed_path(cfg: Cfg, universe: Set<usize>, g: Graph, p: Seq<usize>)
    requires
        forall|a: usize, b: usize| #[trigger] g.edge(a, b) <==> cfg.exit_edge(universe, b, a),
    ensures
        g.path(p) <==> cfg.exit_path(universe, p.reverse()),
{
    let q = p.reverse();
    if g.path(p) {
        assert forall|i: int| 0 <= i < q.len() - 1 implies cfg.exit_edge(universe, #[trigger] q[i], q[i + 1]) by {
            let j = p.len() - 2 - i;
            assert(g.edge(p[j], p[j + 1]));
        }
    }
    if cfg.exit_path(universe, q) {
        assert forall|j: int| 0 <= j < p.len() - 1 implies g.edge(#[trigger] p[j], p[j + 1]) by {
            let i = p.len() - 2 - j;
            assert(cfg.exit_edge(universe, q[i], q[i + 1]));
        }
    }
}

proof fn lemma_reversed(cfg: Cfg, universe: Set<usize>, g: Graph, root: usize)
    requires
        forall|a: usize, b: usize| #[trigger] g.edge(a, b) <==> cfg.exit_edge(universe, b, a),
        root == cfg.n(),
    ensures
        forall|b: usize| #[trigger] g.reaches(root, b) <==> cfg.exits(universe, b),
        forall|a: usize, b: usize| #[trigger] g.dominates(root, a, b) <==> cfg.post_dominates(universe, a, b),
{
    assert forall|b: usize| #[trigger] g.reaches(root, b) <==> cfg.exits(universe, b) by {
        if g.reaches(root, b) {
            let p = g.lemma_reaches_path(root, b);
            lemma_reversed_path(cfg, universe, g, p);
            let q = p.reverse();
            assert(cfg.exit_path(universe, q) && q[0] == b && q.last() == cfg.n());
        }
        if cfg.exits(universe, b) {
            let p = choose|p: Seq<usize>| #[trigger]
                cfg.exit_path(universe, p) && p[0] == b && p.last() == cfg.n();
            let q = p.reverse();
            assert(q.reverse() =~= p);
            lemma_reversed_path(cfg, universe, g, q);
            g.lemma_path_reaches(q);
        }
    }
    assert forall|a: usize, b: usize| #[trigger] g.dominates(root, a, b) <==> cfg.post_dominates(universe, a, b) by {
        if g.dominates(root, a, b) {
            assert forall|p: Seq<usize>| #[trigger]
                cfg.exit_path(universe, p) && p[0] == b && p.last() == cfg.n() implies p.contains(a) by {
                let q = p.reverse();
                assert(q.reverse() =~= p);
                lemma_reversed_path(cfg, universe, g, q);
                assert(g.path(q) && q[0] == root && q.last() == b);
                let i = choose|i: int| 0 <= i < q.len() && q[i] == a;
                assert(p[p.len() - 1 - i] == a);
            }
        }
        if cfg.post_dominates(universe, a, b) {
            assert forall|p: Seq<usize>| #[trigger] g.path(p) && p[0] == root && p.last() == b implies p.contains(a) by {
                lemma_reversed_path(cfg, universe, g, p);
                let q = p.reverse();
                assert(cfg.exit_path(universe, q) && q[0] == b && q.last() == cfg.n());
                let i = choose|i: int| 0 <= i < q.len() && q[i] == a;
                assert(p[p.len() - 1 - i] == a);
            }
        }
    }
}

fn leaves_universe(cfg: &Cfg, universe: &HashSet<usize>, b: usize) -> (r: bool)
    requires
        b < cfg.n(),
    ensures
        r == cfg.leaves(universe@, b),
{
    if cfg.blocks[b].succ.len() == 0 {
        return true;
    }
    let mut k: usize = 0;
    while k < cfg.blocks[b].succ.len()
        invariant
            b < cfg.n(),
            cfg.succ(b).len() > 0,
            k <= cfg.succ(b).len(),
            forall|j: int| 0 <= j < k ==> universe@.contains(#[trigger] cfg.succ(b)[j]),
        decreases cfg.succ(b).len() - k,
    {
        if !universe.contains(&cfg.blocks[b].succ[k]) {
            assert(!universe@.contains(cfg.succ(b)[k as int]));
            return true;
        }
        k += 1;
    }
    false
}

/// The elements of `v` inside `universe`, in order.
pub(crate) fn keep_in(v: &Vec<usize>, universe: &HashSet<usize>) -> (r: Vec<usize>)
    ensures
        r@ == v@.filter(|x: usize| universe@.contains(x)),
        forall|x: usize| #[trigger] r@.contains(x) <==> v@.contains(x) && universe@.contains(x),
        forall|i: int| 0 <= i < r@.len() ==> v@.contains(#[trigger] r@[i]),
{
    let ghost f = |x: usize| universe@.contains(x);
    let mut r: Vec<usize> = Vec::new();
    let mut i: usize = 0;
    assert(v@.take(0).filter(f) =~= Seq::<usize>::empty()) by {
        reveal_with_fuel(Seq::filter, 1);
    }
    while i < v.len()
        invariant
            i <= v.len(),
            f == (|x: usize| universe@.contains(x)),
            r@ == v@.take(i as int).filter(f),
        decreases v.len() - i,
    {
        proof {
            let t = v@.take(i + 1);
            assert(t.drop_last() =~= v@.take(i as int));
            reveal_with_fuel(Seq::filter, 2);
        }
        if universe.contains(&v[i]) {
            r.push(v[i]);
        }
        i += 1;
    }
    proof {
        assert(v@.take(v.len() as int) =~= v@);
        lemma_filter_members(v@, f);
        assert forall|i: int| 0 <= i < r@.len() implies v@.contains(#[trigger] r@[i]) by {
            assert(r@.contains(r@[i]));
        }
    }
    r
}

pub proof fn lemma_filter_members<A>(v: Seq<A>, f: spec_fn(A) -> bool)
    ensures
        forall|x: A| #[trigger] v.filter(f).contains(x) <==> v.contains(x) && f(x),
    decreases v.len(),
{
    reveal(Seq::filter);
    if v.len() > 0 {
        let u = v.drop_last();
        lemma_filter_members(u, f);
        assert forall|x: A| #[trigger] v.filter(f).contains(x) <==> v.contains(x) && f(x) by {
            let w = u.filter(f);
            assert(v.filter(f) == (if f(v.last()) { w.push(v.last()) } else { w }));
            if v.contains(x) && f(x) {
                let i = choose|i: int| 0 <= i < v.len() && v[i] == x;
                if i < u.len() {
                    assert(u[i] == x);
                    assert(w.contains(x));
                    let j = choose|j: int| 0 <= j < w.len() && w[j] == x;
                    assert(v.filter(f)[j] == x);
                } else {
                    assert(v.filter(f)[w.len() as int] == x);
                }
            }
            if v.filter(f).contains(x) {
                let j = choose|j: int| 0 <= j < v.filter(f).len() && v.filter(f)[j] == x;
                if j < w.len() {
                    assert(w[j] == x);
                    assert(w.contains(x));
                    assert(u.contains(x));
                    let i = choose|i: int| 0 <= i < u.len() && u[i] == x;
                    assert(v[i] == x);
                } else {
                    assert(v[v.len() - 1] == x);
                }
            }
        }
    }
}

/// Immediate post-dominators over `universe`, rooted at a single virtual exit
/// that every block leaving the universe (a terminator, or an edge out of
/// `universe`) flows to. Returns the exit's id and, for each block of the
/// universe, its immediate post-dominator; a block from which no path reaches
/// the exit is mapped to the exit, and so is the exit itself.
pub fn compute_postdominators(cfg: &Cfg, universe: &HashSet<usize>) -> (r: (usize, HashMap<usize, usize>))
    requires
        cfg.wf(),
        cfg.n() < usize::MAX,
        forall|b: usize| #[trigger] universe@.contains(b) ==> b < cfg.n(),
    ensures
        r.0 == cfg.n(),
        r.1@.dom() == universe@.insert(r.0),
        r.1@[r.0] == r.0,
        forall|b: usize| #[trigger] universe@.contains(b) ==> if cfg.exits(universe@, b) {
            cfg.immediate_post(universe@, r.1@[b], b)
        } else {
            r.1@[b] == r.0
        },
{
    let vx = cfg.blocks.len();
    // Reversed flow: successors of a block are its predecessors in the
    // universe, and the exit's successors are the leaving blocks.
    let mut fwd: Vec<Vec<usize>> = Vec::new();
    let mut back: Vec<Vec<usize>> = Vec::new();
    let mut leaving: Vec<usize> = Vec::new();
    let mut b: usize = 0;
    while b < vx
        invariant
            cfg.wf(),
            vx == cfg.n(),
            b <= vx,
            fwd@.len() == b,
            back@.len() == b,
            forall|x: usize| #[trigger] universe@.contains(x) ==> x < cfg.n(),
            forall|x: usize, y: usize| x < b ==> (#[trigger] fwd@[x as int]@.contains(y) <==> cfg.exit_edge(universe@, y, x)),
            forall|x: usize, y: usize| x < b ==> (#[trigger] back@[x as int]@.contains(y) <==> cfg.exit_edge(universe@, x, y)),
            forall|y: usize| #[trigger] leaving@.contains(y) <==> y < b && universe@.contains(y) && cfg.leaves(universe@, y),
        decreases vx - b,
    {
        if universe.contains(&b) {
            let ps = keep_in(&cfg.blocks[b].pred, universe);
            let mut ss = keep_in(&cfg.blocks[b].succ, universe);
            let ghost ss0 = ss@;
            let ghost lv0 = leaving@;
            proof {
                assert forall|y: usize| #[trigger] ps@.contains(y) <==> cfg.exit_edge(universe@, y, b) by {
                    if universe@.contains(y) {
                        assert(cfg.blocks@[y as int].succ@.contains(b) <==> cfg.blocks@[b as int].pred@.contains(y));
                    }
                }
            }
            if leaves_universe(cfg, universe, b) {
                ss.push(vx);
                leaving.push(b);
                proof {
                    assert(ss@[ss0.len() as int] == vx);
                    assert(leaving@[lv0.len() as int] == b);
                    assert forall|y: usize| #[trigger] ss@.contains(y) <==> ss0.contains(y) || y == vx by {
                        if ss0.contains(y) {
                            let i = choose|i: int| 0 <= i < ss0.len() && ss0[i] == y;
                            assert(ss@[i] == y);
                        }
                        if ss@.contains(y) && y != vx {
                            let i = choose|i: int| 0 <= i < ss@.len() && ss@[i] == y;
                            assert(ss0[i] == y);
                        }
                    }
                    assert forall|y: usize| #[trigger] leaving@.contains(y) <==> lv0.contains(y) || y == b by {
                        if lv0.contains(y) {
                            let i = choose|i: int| 0 <= i < lv0.len() && lv0[i] == y;
                            assert(leaving@[i] == y);
                        }
                        if leaving@.contains(y) && y != b {
                            let i = choose|i: int| 0 <= i < leaving@.len() && leaving@[i] == y;
                            assert(lv0[i] == y);
                        }
                    }
                }
            }
            assert(!universe@.contains(vx));
            fwd.push(ps);
            back.push(ss);
        } else {
            let e: Vec<usize> = Vec::new();
            fwd.push(e);
            let e: Vec<usize> = Vec::new();
            back.push(e);
        }
        b += 1;
    }
    let none: Vec<usize> = Vec::new();
    let ghost exits_list = leaving@;
    fwd.push(leaving);
    back.push(none);
    let ghost g = Graph { adj: dominators::lists(fwd@), bar: Set::empty() };
    proof {
        assert(!universe@.contains(vx));
        assert forall|x: usize, y: usize| x <= vx implies (#[trigger] fwd@[x as int]@.contains(y) <==> cfg.exit_edge(universe@, y, x)) by {
            if x == vx {
                assert(exits_list.contains(y) <==> universe@.contains(y) && cfg.leaves(universe@, y));
            }
        }
        assert forall|a: usize, b: usize| #[trigger] g.edge(a, b) <==> cfg.exit_edge(universe@, b, a) by {
            if a <= vx {
                assert(g.adj[a as int] == fwd@[a as int]@);
                assert(fwd@[a as int]@.contains(b) <==> cfg.exit_edge(universe@, b, a));
            }
        }
        assert forall|a: int, k: int| 0 <= a < g.adj.len() && 0 <= k < g.adj[a].len() implies #[trigger] g.adj[a][k] < g.adj.len() by {
            let y = g.adj[a][k];
            assert(fwd@[a]@[k] == y);
            assert(fwd@[a as usize as int]@.contains(y));
            assert(cfg.exit_edge(universe@, y, a as usize));
        }
        assert forall|x: usize, y: usize| x <= vx && y <= vx implies (#[trigger] fwd@[x as int]@.contains(y) <==> #[trigger] back@[y as int]@.contains(x)) by {
            assert(fwd@[x as int]@.contains(y) <==> cfg.exit_edge(universe@, y, x));
            if y < vx {
                assert(back@[y as int]@.contains(x) <==> cfg.exit_edge(universe@, y, x));
            }
        }
        assert forall|b: int, k: int| 0 <= b < back@.len() && 0 <= k < back@[b]@.len() implies #[trigger] back@[b]@[k] < fwd@.len() by {
            let y = back@[b]@[k];
            assert(b < vx);
            assert(back@[b as usize as int]@.contains(y));
            assert(cfg.exit_edge(universe@, b as usize, y));
        }
    }
    let tree = dominators::dominator_tree(&fwd, &back, vx);
    proof {
        lemma_reversed(*cfg, universe@, g, vx);
    }
    let reached = dominated(&tree, vx, Ghost(g));
    let mut ipdom: HashMap<usize, usize> = HashMap::new();
    ipdom.insert(vx, vx);
    let mut b: usize = 0;
    while b < vx
        invariant
            vx == cfg.n(),
            b <= vx,
            tree@.len() == vx + 1,
            reached@.len() == vx + 1,
            g.dom_tree(vx, tree@),
            forall|x: usize| x <= vx ==> #[trigger] reached@[x as int] == g.reaches(vx, x),
            forall|x: usize| #[trigger] universe@.contains(x) ==> x < cfg.n(),
            forall|x: usize| #[trigger] ipdom@.dom().contains(x) <==> x == vx || (x < b && universe@.contains(x)),
            ipdom@[vx] == vx,
            forall|x: usize| x < b && #[trigger] universe@.contains(x) ==> ipdom@[x] == (if g.reaches(vx, x) { tree@[x as int] } else { vx }),
        decreases vx - b,
    {
        if universe.contains(&b) {
            if reached[b] {
                ipdom.insert(b, tree[b]);
            } else {
                ipdom.insert(b, vx);
            }
        }
        b += 1;
    }
    proof {
        assert(ipdom@.dom() =~= universe@.insert(vx));
        assert forall|b: usize| #[trigger] universe@.contains(b) implies if cfg.exits(universe@, b) {
            cfg.immediate_post(universe@, ipdom@[b], b)
        } else {
            ipdom@[b] == vx
        } by {
            assert(b < vx);
            if cfg.exits(universe@, b) {
                assert(g.reaches(vx, b));
                let d = tree@[b as int];
                assert(g.immediate(vx, d, b));
                assert forall|a: usize| a != b && #[trigger] cfg.post_dominates(universe@, a, b) implies cfg.post_dominates(universe@, a, d) by {
                    assert(g.dominates(vx, a, b));
                    assert(g.dominates(vx, a, d));
                }
                assert(g.dominates(vx, d, b));
                assert(g.reaches(vx, d));
            }
        }
    }
    (vx, ipdom)
}

/// For each node, whether it belongs to the tree of `root`: everything else is
/// its own parent.
fn dominated(tree: &Vec<usize>, root: usize, Ghost(g): Ghost<Graph>) -> (r: Vec<bool>)
    requires
        g.dom_tree(root, tree@),
        root < tree@.len(),
    ensures
        r@.len() == tree@.len(),
        forall|x: usize| x < r@.len() ==> #[trigger] r@[x as int] == g.reaches(root, x),
{
    let mut r: Vec<bool> = Vec::new();
    let mut i: usize = 0;
    while i < tree.len()
        invariant
            i <= tree@.len(),
            r@.len() == i,
            g.dom_tree(root, tree@),
            root < tree@.len(),
            forall|x: usize| x < i ==> #[trigger] r@[x as int] == g.reaches(root, x),
        decreases tree@.len() - i,
    {
        proof {
            g.lemma_reaches_self(root);
            if i != root && g.reaches(root, i) {
                assert(g.immediate(root, tree@[i as int], i));
            }
        }
        r.push(i == root || tree[i] != i);
        i += 1;
    }
    r
}

} // verus!
