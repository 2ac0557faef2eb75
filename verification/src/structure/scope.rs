//! Which blocks a walk may enter: handler-owned flow, branch scopes, adopted groups.

use std::collections::HashSet;

use vstd::prelude::*;

use crate::cfg::Cfg;
use crate::sets::{copy_set, list_has};
use crate::structure::env::Env;
use crate::structure::graph;
use crate::structure::graph::{flood, reachable_within};
use crate::structure::reach;
use crate::structure::reach::flow_finds;
use crate::structure::structurer::Structurer;

verus! {

broadcast use vstd::std_specs::hash::group_hash_axioms;

/// Blocks reached from `entry` on ways inside `allowed`.
pub(crate) fn flood_within(cfg: &Cfg, entry: usize, allowed: &HashSet<usize>) -> (r: HashSet<usize>)
    requires
        cfg.wf(),
        entry < cfg.n(),
    ensures
        r@ == cfg.within(allowed@).reach(entry),
        forall|b: usize| #[trigger] r@.contains(b) ==> b < cfg.n(),
{
    let bar = outside_of(cfg, allowed);
    proof {
        lemma_outside(*cfg, allowed@);
    }
    let r = flood(cfg, entry, &bar);
    assert(r@ =~= cfg.within(allowed@).reach(entry));
    r
}

/// The blocks not in `allowed`.
pub open spec fn outside(cfg: Cfg, allowed: Set<usize>) -> Set<usize> {
    Set::new(|b: usize| b < cfg.n() && !allowed.contains(b))
}

pub(crate) fn outside_of(cfg: &Cfg, allowed: &HashSet<usize>) -> (r: HashSet<usize>)
    ensures
        r@ == outside(*cfg, allowed@),
{
    let mut r: HashSet<usize> = HashSet::new();
    let mut b: usize = 0;
    while b < cfg.blocks.len()
        invariant
            b <= cfg.n(),
            forall|x: usize| #[trigger] r@.contains(x) <==> x < b && !allowed@.contains(x),
        decreases cfg.n() - b,
    {
        if !allowed.contains(&b) {
            r.insert(b);
        }
        b += 1;
    }
    assert(r@ =~= outside(*cfg, allowed@));
    r
}

/// Barring the blocks outside a set is flow within it.
pub proof fn lemma_outside(cfg: Cfg, allowed: Set<usize>)
    requires
        cfg.wf(),
    ensures
        forall|from: usize, to: usize|
            #[trigger] cfg.flow(outside(cfg, allowed)).reaches(from, to) == cfg.within(allowed).reaches(from, to),
{
    let a = cfg.flow(outside(cfg, allowed));
    let b = cfg.within(allowed);
    assert forall|x: usize, y: usize| #[trigger] a.edge(x, y) == b.edge(x, y) by {
        if x < cfg.n() && a.adj[x as int].contains(y) {
            let k = a.adj[x as int].index_of(y);
            assert(cfg.blocks@[x as int].succ@[k] < cfg.n());
        }
    }
    a.lemma_same_edges(b);
}

impl Cfg {
    /// Flow from `seeds` and `own` comes to the open block `s`, and nothing
    /// else comes there but from `side`.
    pub open spec fn flows_on(self, seeds: Set<usize>, open: Set<usize>, side: Set<usize>, own: Set<usize>, s: usize) -> bool {
        &&& open.contains(s)
        &&& s < self.n()
        &&& exists|p: usize| p < self.n() && (seeds.contains(p) || own.contains(p)) && #[trigger] self.succ(p).contains(s)
        &&& forall|k: int|
            0 <= k < self.pred(s).len() ==> own.contains(#[trigger] self.pred(s)[k]) || side.contains(self.pred(s)[k])
    }

    pub open spec fn flow_closed(self, seeds: Set<usize>, open: Set<usize>, side: Set<usize>, own: Set<usize>) -> bool {
        forall|s: usize| #[trigger] self.flows_on(seeds, open, side, own, s) ==> own.contains(s)
    }

    /// The least set of open blocks that flow from `seeds` owns.
    pub open spec fn owned_flow(self, seeds: Set<usize>, open: Set<usize>, side: Set<usize>) -> Set<usize> {
        Set::new(
            |b: usize|
                b < self.n() && forall|own: Set<usize>| #[trigger] self.flow_closed(seeds, open, side, own) ==> own.contains(b),
        )
    }
}

impl Env {
    // -- handler-owned flow -------------------------------------------------

    /// The block heads a handler of the group.
    pub open spec fn heads(self, gi: usize, b: usize) -> bool {
        exists|j: int|
            0 <= j < self.groups[gi as int].handlers.len() && self.cfg.at(
                (#[trigger] self.groups[gi as int].handlers[j]).0,
            ) == Some(b)
    }

    /// The blocks that head a handler of the group.
    pub open spec fn head_set(self, gi: usize) -> Set<usize> {
        Set::new(|b: usize| self.heads(gi, b))
    }

    /// The blocks that may belong to handler flow: outside body and handlers, no loop header.
    pub open spec fn ownable(self, gi: usize, loops: Seq<usize>) -> Set<usize> {
        Set::new(
            |s: usize|
                s < self.n() && !self.in_body(s, gi) && !self.is_handler(s) && !self.headers.contains(s) && !loops.contains(
                    s,
                ),
        )
    }

    /// The blocks on the group's side: its body and all handlers.
    pub open spec fn group_side(self, gi: usize) -> Set<usize> {
        Set::new(|p: usize| p < self.n() && (self.in_body(p, gi) || self.is_handler(p)))
    }

    /// The blocks that handler flow of the group alone comes to.
    pub open spec fn handler_flow(self, gi: usize, loops: Seq<usize>) -> Set<usize> {
        self.cfg.owned_flow(self.head_set(gi), self.ownable(gi, loops), self.group_side(gi))
    }

    pub open spec fn handlers_all(self) -> Set<usize> {
        self.handler.dom()
    }

    /// Blocks reached from the method entry without entering a handler.
    pub open spec fn normal_reach(self) -> Set<usize> {
        if self.is_handler(self.cfg.entry) {
            Set::empty()
        } else {
            self.cfg.flow(self.handlers_all()).reach(self.cfg.entry)
        }
    }

    /// A branch inside the handler at `entry`, kept to what the handler owns.
    pub open spec fn restricted(self, sub: Set<usize>, entry: usize, loops: Seq<usize>) -> Set<usize> {
        if self.is_handler(entry) {
            let gi = self.handler[entry];
            Set::new(
                |b: usize|
                    b == entry || (sub.contains(b) && (self.handler_flow(gi, loops).contains(b)
                        || !self.normal_reach().contains(b) || self.handles(b, gi))),
            )
        } else {
            sub
        }
    }

    // -- branch scopes -------------------------------------------------------

    /// Some block of `s` starts where the group starts.
    pub open spec fn holds_start(self, gi: usize, s: Set<usize>) -> bool {
        exists|b: usize| b < self.n() && #[trigger] s.contains(b) && self.start(b) == self.groups[gi as int].start
    }

    /// The block lies with code in the span of the group.
    pub open spec fn spanned(self, b: usize, gi: usize) -> bool {
        b < self.n() && self.cfg.len(b) != 0 && self.in_span(b, self.groups[gi as int])
    }

    /// The block is in the span of a group that `seed` enters at its start.
    pub open spec fn drawn_in(self, seed: Set<usize>, b: usize) -> bool {
        exists|x: usize|
            #[trigger] seed.contains(x) && self.body.dom().contains(x) && self.holds_start(self.body[x], seed)
                && self.spanned(b, self.body[x])
    }

    pub open spec fn reach_within(self, from: usize, stop: Set<usize>) -> Set<usize> {
        if stop.contains(from) {
            Set::empty()
        } else {
            self.cfg.flow(stop).reach(from)
        }
    }

    /// The unclaimed blocks that a branch at `from` may structure.
    pub open spec fn sub_scope(self, from: usize, universe: Set<usize>, stop: Set<usize>, claimed: Set<usize>) -> Set<usize> {
        Set::new(
            |b: usize|
                b == from || (self.reach_within(from, stop).contains(b) && (universe.insert(from).contains(b)
                    || self.drawn_in(universe.insert(from), b)) && !claimed.contains(b) && !self.is_handler(b)),
        )
    }

    // -- owner scope -----------------------------------------------------------

    /// Flow inside `universe` comes from `from` to the first block of the group.
    pub open spec fn arm_reaches(self, from: usize, gi: usize, universe: Set<usize>) -> bool {
        match self.cfg.at(self.groups[gi as int].start) {
            Some(t) => reach::finds(
                self.cfg.flow(outside(self.cfg, universe)),
                t,
                seq![from],
                Set::empty().insert(from),
                1024,
            ),
            None => false,
        }
    }

    /// Spans that nest either way.
    pub open spec fn nests(self, a: usize, b: usize) -> bool {
        let x = self.groups[a as int];
        let y = self.groups[b as int];
        (x.start >= y.start && x.end <= y.end) || (x.start <= y.start && x.end >= y.end)
    }

    /// A branch at `b` may structure `x`: no group of its own, or one that
    /// nests with the group of `b`, or a later one that `b` flows to.
    pub open spec fn ownable_by(self, b: usize, x: usize, universe: Set<usize>) -> bool {
        self.body.dom().contains(x) ==> {
            let gi = self.body[b];
            let og = self.body[x];
            og == gi || self.nests(og, gi) || (self.groups[og as int].start >= self.groups[gi as int].end
                && self.arm_reaches(b, og, universe))
        }
    }

    pub open spec fn owner_base(self, b: usize, universe: Set<usize>) -> Set<usize> {
        if self.body.dom().contains(b) {
            universe.filter(|x: usize| self.ownable_by(b, x, universe))
        } else {
            universe
        }
    }

    pub open spec fn owner_scope(self, b: usize, universe: Set<usize>, structuring: Seq<usize>) -> Set<usize> {
        self.adopted(self.owner_base(b, universe), seq![b], Set::empty(), structuring, 512)
    }

    /// Some block of `out` is in the body of the group.
    pub open spec fn touches(self, out: Set<usize>, gi: usize) -> bool {
        exists|x: usize| #[trigger] out.contains(x) && self.in_body(x, gi)
    }

    /// The group of `t` is a whole group that `out` holds nothing of and no
    /// group of `out` encloses.
    pub open spec fn orphan(self, t: usize, out: Set<usize>, structuring: Seq<usize>) -> bool {
        &&& self.body.dom().contains(t)
        &&& !structuring.contains(self.body[t])
        &&& !self.holds_start(self.body[t], out)
        &&& !exists|x: usize|
            #[trigger] out.contains(x) && (self.in_body(x, self.body[t]) || self.handles(x, self.body[t]))
        &&& !exists|gi: usize|
            gi < self.groups.len() && #[trigger] self.touches(out, gi) && self.groups[gi as int].start
                <= self.groups[self.body[t] as int].start && self.groups[gi as int].end
                >= self.groups[self.body[t] as int].end
    }

    /// The blocks with code in the span of the group, from `k` on.
    pub open spec fn span_from(self, gi: usize, k: nat) -> Seq<usize>
        decreases self.n() - k,
    {
        if k >= self.n() {
            Seq::empty()
        } else if self.spanned(k as usize, gi) {
            seq![k as usize] + self.span_from(gi, k + 1)
        } else {
            self.span_from(gi, k + 1)
        }
    }

    /// The handler heads of the group, from `k` on.
    pub open spec fn heads_from(self, gi: usize, k: nat) -> Seq<usize>
        decreases self.n() - k,
    {
        if k >= self.n() {
            Seq::empty()
        } else if self.handles(k as usize, gi) {
            seq![k as usize] + self.heads_from(gi, k + 1)
        } else {
            self.heads_from(gi, k + 1)
        }
    }

    /// The groupless blocks of a plain chain from `pc`.
    pub open spec fn tail_from(self, pc: u32, fuel: nat) -> Seq<usize>
        decreases fuel,
    {
        match self.cfg.at(pc) {
            Some(b) => if fuel == 0 || self.body.dom().contains(b) {
                Seq::empty()
            } else {
                match self.hop(b) {
                    Some(y) => seq![b] + self.tail_from(self.start(y), (fuel - 1) as nat),
                    None => seq![b],
                }
            },
            None => Seq::empty(),
        }
    }

    /// A group's span blocks, its handler heads, and the chain behind it.
    pub open spec fn whole_group(self, gi: usize) -> Seq<usize> {
        self.span_from(gi, 0) + self.heads_from(gi, 0) + self.tail_from(self.groups[gi as int].end, 8)
    }

    /// `out` and the blocks to visit after the successors from `k` on were looked at.
    pub open spec fn adopt_from(self, list: Seq<usize>, k: nat, out: Set<usize>, todo: Seq<usize>, structuring: Seq<usize>) -> (
        Set<usize>,
        Seq<usize>,
    )
        decreases list.len() - k,
    {
        if k >= list.len() {
            (out, todo)
        } else {
            let t = list[k as int];
            if out.contains(t) {
                self.adopt_from(list, k + 1, out, todo.push(t), structuring)
            } else if self.orphan(t, out, structuring) {
                let w = self.whole_group(self.body[t]);
                self.adopt_from(list, k + 1, out.union(w.to_set()), todo + w, structuring)
            } else {
                self.adopt_from(list, k + 1, out, todo, structuring)
            }
        }
    }

    /// `out` with the orphan groups that flow from `todo` comes to.
    pub open spec fn adopted(self, out: Set<usize>, todo: Seq<usize>, seen: Set<usize>, structuring: Seq<usize>, fuel: nat) -> Set<usize>
        decreases fuel,
    {
        if todo.len() == 0 || fuel == 0 {
            out
        } else {
            let b = todo.last();
            let rest = todo.drop_last();
            if seen.contains(b) {
                self.adopted(out, rest, seen, structuring, (fuel - 1) as nat)
            } else if !out.contains(b) {
                self.adopted(out, rest, seen.insert(b), structuring, (fuel - 1) as nat)
            } else {
                let (o, t) = self.adopt_from(self.succ(b), 0, out, rest, structuring);
                self.adopted(o, t, seen.insert(b), structuring, (fuel - 1) as nat)
            }
        }
    }
}

/// The least set of open blocks that flow from `seeds` owns.
#[verifier::loop_isolation(false)]
pub(crate) fn owned_flow(cfg: &Cfg, seeds: &HashSet<usize>, open: &HashSet<usize>, side: &HashSet<usize>) -> (r: HashSet<usize>)
    requires
        cfg.wf(),
    ensures
        r@ == cfg.owned_flow(seeds@, open@, side@),
        forall|b: usize| #[trigger] r@.contains(b) ==> b < cfg.n(),
{
    let ghost e = *cfg;
    let mut own: HashSet<usize> = HashSet::new();
    let mut q: Vec<usize> = Vec::new();
    let mut j: usize = 0;
    while j < cfg.blocks.len()
        invariant
            j <= e.n(),
            forall|i: int| 0 <= i < q@.len() ==> #[trigger] q@[i] < e.n() && seeds@.contains(q@[i]),
            forall|b: usize| b < j && #[trigger] seeds@.contains(b) ==> q@.contains(b),
        decreases e.n() - j,
    {
        let ghost q0 = q@;
        if seeds.contains(&j) {
            q.push(j);
            assert(q@[q0.len() as int] == j);
        }
        assert forall|b: usize| #[trigger] q0.contains(b) implies q@.contains(b) by {
            let i = q0.index_of(b);
            assert(q@[i] == b);
        }
        j += 1;
    }
    while q.len() > 0
        invariant
            forall|i: int| 0 <= i < q@.len() ==> #[trigger] q@[i] < e.n() && (seeds@.contains(q@[i]) || own@.contains(q@[i])),
            forall|b: usize| #[trigger] own@.contains(b) ==> b < e.n(),
            forall|b: usize, x: Set<usize>|
                #[trigger] own@.contains(b) && #[trigger] e.flow_closed(seeds@, open@, side@, x) ==> x.contains(b),
            forall|s: usize|
                #[trigger] e.flows_on(seeds@, open@, side@, own@, s) && !own@.contains(s) ==> exists|p: usize|
                    q@.contains(p) && #[trigger] e.succ(p).contains(s),
        decreases graph::unseen(e.n(), own@), q@.len(),
    {
        let ghost q0 = q@;
        let b = q.pop().unwrap();
        assert(q@ == q0.drop_last());
        assert(b == q0[q0.len() - 1]);
        let list = &cfg.blocks[b].succ;
        let mut i: usize = 0;
        let ghost own0 = own@;
        assert forall|s: usize| #[trigger] e.flows_on(seeds@, open@, side@, own@, s) && !own@.contains(s) implies (
        exists|p: usize| q@.contains(p) && #[trigger] e.succ(p).contains(s)) || list@.skip(0).contains(s) by {
            let p = choose|p: usize| q0.contains(p) && #[trigger] e.succ(p).contains(s);
            if p == b {
                assert(list@.skip(0) =~= list@);
            } else {
                let k = q0.index_of(p);
                assert(q@[k] == p);
            }
        }
        while i < list.len()
            invariant
                i <= list@.len(),
                own0.subset_of(own@),
                q@.len() <= q0.drop_last().len() || graph::unseen(e.n(), own@) < graph::unseen(e.n(), own0),
                forall|i: int|
                    0 <= i < q@.len() ==> #[trigger] q@[i] < e.n() && (seeds@.contains(q@[i]) || own@.contains(q@[i])),
                forall|b: usize| #[trigger] own@.contains(b) ==> b < e.n(),
                forall|b: usize, x: Set<usize>|
                    #[trigger] own@.contains(b) && #[trigger] e.flow_closed(seeds@, open@, side@, x) ==> x.contains(b),
                forall|s: usize|
                    #[trigger] e.flows_on(seeds@, open@, side@, own@, s) && !own@.contains(s) ==> (exists|p: usize|
                        q@.contains(p) && #[trigger] e.succ(p).contains(s)) || list@.skip(i as int).contains(s),
            decreases list@.len() - i,
        {
            let s = list[i];
            let ghost own1 = own@;
            let ghost q1 = q@;
            assert(e.succ(b).contains(s));
            assert(e.blocks@[b as int].succ@[i as int] < e.n());
            let add = open.contains(&s) && !own.contains(&s) && all_sided(cfg, side, &own, s);
            if add {
                assert(e.flows_on(seeds@, open@, side@, own1, s));
                proof {
                    graph::lemma_unseen_insert(e.n(), own1, s);
                    graph::lemma_unseen_subset(e.n(), own0, own1);
                    assert forall|x: Set<usize>| #[trigger] e.flow_closed(seeds@, open@, side@, x) implies x.contains(s) by {
                        assert(e.flows_on(seeds@, open@, side@, x, s)) by {
                            if !seeds@.contains(b) {
                                assert(own1.contains(b));
                            }
                            assert(e.succ(b).contains(s));
                            assert forall|k: int| 0 <= k < e.pred(s).len() implies x.contains(#[trigger] e.pred(s)[k])
                                || side@.contains(e.pred(s)[k]) by {
                                assert(own1.contains(e.pred(s)[k]) || side@.contains(e.pred(s)[k]));
                            }
                        }
                    }
                }
                own.insert(s);
                q.push(s);
                assert(q@[q1.len() as int] == s);
            }
            proof {
                assert forall|p: usize| #[trigger] q1.contains(p) implies q@.contains(p) by {
                    let k = q1.index_of(p);
                    assert(q@[k] == p);
                }
                assert forall|u: usize| #[trigger] e.flows_on(seeds@, open@, side@, own@, u) && !own@.contains(u) implies (
                exists|p: usize| q@.contains(p) && #[trigger] e.succ(p).contains(u)) || list@.skip(i + 1).contains(u) by {
                    if e.flows_on(seeds@, open@, side@, own1, u) {
                        if list@.skip(i as int).contains(u) {
                            let k = list@.skip(i as int).index_of(u);
                            if k == 0 {
                                assert(u == s);
                                assert(add);
                            } else {
                                assert(list@.skip(i + 1)[k - 1] == u);
                            }
                        } else {
                            let p = choose|p: usize| q1.contains(p) && #[trigger] e.succ(p).contains(u);
                            assert(q@.contains(p));
                        }
                    } else {
                        assert(add);
                        assert(q@.contains(s));
                        if !e.succ(s).contains(u) {
                            assert(!e.pred(u).contains(s)) by {
                                if e.pred(u).contains(s) {
                                    assert(e.blocks@[u as int].pred@.contains(s));
                                    assert(e.blocks@[s as int].succ@.contains(u));
                                }
                            }
                            assert forall|k: int| 0 <= k < e.pred(u).len() implies own1.contains(#[trigger] e.pred(u)[k])
                                || side@.contains(e.pred(u)[k]) by {
                                assert(own@.contains(e.pred(u)[k]) || side@.contains(e.pred(u)[k]));
                                assert(e.pred(u).contains(e.pred(u)[k]));
                            }
                            let p = choose|p: usize|
                                p < e.n() && (seeds@.contains(p) || own@.contains(p)) && #[trigger] e.succ(p).contains(u);
                            assert(p != s);
                            assert(e.succ(p).contains(u));
                            assert(e.flows_on(seeds@, open@, side@, own1, u));
                        }
                    }
                }
            }
            i += 1;
        }
        proof {
            graph::lemma_unseen_subset(e.n(), own0, own@);
            assert forall|s: usize| #[trigger] e.flows_on(seeds@, open@, side@, own@, s) && !own@.contains(s) implies exists|
                p: usize,
            |
                q@.contains(p) && #[trigger] e.succ(p).contains(s) by {
                assert(!list@.skip(i as int).contains(s));
            }
        }
    }
    proof {
        assert(e.flow_closed(seeds@, open@, side@, own@));
        assert(own@ =~= e.owned_flow(seeds@, open@, side@));
    }
    own
}

/// Every way into `s` comes from `side` or `own`.
fn all_sided(cfg: &Cfg, side: &HashSet<usize>, own: &HashSet<usize>, s: usize) -> (r: bool)
    requires
        s < cfg.n(),
    ensures
        r == forall|k: int|
            0 <= k < cfg.pred(s).len() ==> own@.contains(#[trigger] cfg.pred(s)[k]) || side@.contains(cfg.pred(s)[k]),
{
    let preds = &cfg.blocks[s].pred;
    let mut k: usize = 0;
    while k < preds.len()
        invariant
            preds@ == cfg.pred(s),
            k <= preds@.len(),
            forall|j: int| 0 <= j < k ==> own@.contains(#[trigger] cfg.pred(s)[j]) || side@.contains(cfg.pred(s)[j]),
        decreases preds@.len() - k,
    {
        let p = preds[k];
        if !own.contains(&p) && !side.contains(&p) {
            assert(!own@.contains(cfg.pred(s)[k as int]));
            return false;
        }
        k += 1;
    }
    true
}

impl<'a> Structurer<'a> {
    /// Blocks that only handler flow of the group comes to.
    #[verifier::loop_isolation(false)]
    pub(crate) fn handler_flow_only(&self, gi: usize, loops: &Vec<usize>) -> (r: HashSet<usize>)
        requires
            self.wf(),
            gi < self.groups@.len(),
        ensures
            r@ == self.env().handler_flow(gi, loops@),
            forall|b: usize| #[trigger] r@.contains(b) ==> b < self.env().n(),
    {
        let ghost e = self.env();
        let mut seeds: HashSet<usize> = HashSet::new();
        let g = &self.groups[gi];
        assert(e.groups[gi as int] == g@);
        let mut j: usize = 0;
        while j < g.handlers.len()
            invariant
                j <= g.handlers@.len(),
                forall|b: usize|
                    #[trigger] seeds@.contains(b) <==> exists|i: int|
                        0 <= i < j && e.cfg.at((#[trigger] e.groups[gi as int].handlers[i]).0) == Some(b),
            decreases g.handlers@.len() - j,
        {
            let ghost s0 = seeds@;
            assert(e.groups[gi as int].handlers[j as int].0 == g.handlers@[j as int].0);
            let at = self.cfg.block_at(g.handlers[j].0);
            if let Some(b) = at {
                seeds.insert(b);
            }
            assert forall|b: usize|
                #[trigger] seeds@.contains(b) <==> exists|i: int|
                    0 <= i < j + 1 && e.cfg.at((#[trigger] e.groups[gi as int].handlers[i]).0) == Some(b) by {
                if s0.contains(b) {
                    let i = choose|i: int|
                        0 <= i < j && e.cfg.at((#[trigger] e.groups[gi as int].handlers[i]).0) == Some(b);
                    assert(e.cfg.at(e.groups[gi as int].handlers[i].0) == Some(b));
                }
                if at == Some(b) {
                    assert(e.cfg.at(e.groups[gi as int].handlers[j as int].0) == Some(b));
                }
                assert(s0.contains(b) ==> seeds@.contains(b));
            }
            j += 1;
        }
        assert(seeds@ =~= e.head_set(gi));
        let mut open: HashSet<usize> = HashSet::new();
        let mut side: HashSet<usize> = HashSet::new();
        let mut b: usize = 0;
        while b < self.cfg.blocks.len()
            invariant
                b <= e.n(),
                forall|x: usize| #[trigger] open@.contains(x) <==> x < b && e.ownable(gi, loops@).contains(x),
                forall|x: usize| #[trigger] side@.contains(x) <==> x < b && e.group_side(gi).contains(x),
            decreases e.n() - b,
        {
            if self.is_in_body(b, gi) || self.is_handler_block(b) {
                side.insert(b);
            } else if !self.sese_loop_headers.contains(&b) && !list_has(loops, b) {
                open.insert(b);
            }
            b += 1;
        }
        assert(open@ =~= e.ownable(gi, loops@));
        assert(side@ =~= e.group_side(gi));
        owned_flow(self.cfg, &seeds, &open, &side)
    }

    fn handler_set(&self) -> (r: HashSet<usize>)
        requires
            self.wf(),
        ensures
            r@ == self.env().handlers_all(),
    {
        let mut r: HashSet<usize> = HashSet::new();
        let mut b: usize = 0;
        while b < self.cfg.blocks.len()
            invariant
                b <= self.env().n(),
                forall|x: usize| #[trigger] r@.contains(x) <==> x < b && self.env().is_handler(x),
            decreases self.env().n() - b,
        {
            if self.is_handler_block(b) {
                r.insert(b);
            }
            b += 1;
        }
        assert(r@ =~= self.env().handlers_all());
        r
    }

    /// A branch inside the handler at `entry`, kept to what the handler owns.
    pub(crate) fn restrict_handler_branch(&self, sub: HashSet<usize>, entry: usize, loops: &Vec<usize>) -> (r: HashSet<usize>)
        requires
            self.wf(),
            entry < self.env().n(),
            forall|x: usize| #[trigger] sub@.contains(x) ==> x < self.env().n(),
        ensures
            r@ == self.env().restricted(sub@, entry, loops@),
            forall|x: usize| #[trigger] r@.contains(x) ==> x < self.env().n(),
    {
        let gi = match self.handler_group.get(&entry) {
            Some(g) => *g,
            None => {
                return sub;
            },
        };
        assert(self.env().handler.dom().contains(entry));
        let own = self.handler_flow_only(gi, loops);
        let normal = if self.is_handler_block(self.cfg.entry) {
            HashSet::new()
        } else {
            let bar = self.handler_set();
            flood(self.cfg, self.cfg.entry, &bar)
        };
        assert(normal@ =~= self.env().normal_reach());
        let mut r: HashSet<usize> = HashSet::new();
        let mut b: usize = 0;
        while b < self.cfg.blocks.len()
            invariant
                b <= self.env().n(),
                own@ == self.env().handler_flow(gi, loops@),
                normal@ == self.env().normal_reach(),
                self.env().is_handler(entry) && gi == self.env().handler[entry],
                forall|x: usize| #[trigger] r@.contains(x) <==> x < b && self.env().restricted(sub@, entry, loops@).contains(x),
            decreases self.env().n() - b,
        {
            if b == entry || (sub.contains(&b) && (own.contains(&b) || !normal.contains(&b) || self.does_handle(b, gi))) {
                r.insert(b);
            }
            b += 1;
        }
        assert(r@ =~= self.env().restricted(sub@, entry, loops@));
        r
    }

    pub(crate) fn is_start_held(&self, gi: usize, s: &HashSet<usize>) -> (r: bool)
        requires
            self.wf(),
            gi < self.groups@.len(),
        ensures
            r == self.env().holds_start(gi, s@),
    {
        let pc = self.groups[gi].start;
        assert(self.env().groups[gi as int] == self.groups@[gi as int]@);
        let mut b: usize = 0;
        while b < self.cfg.blocks.len()
            invariant
                b <= self.env().n(),
                pc == self.env().groups[gi as int].start,
                forall|x: usize| x < b && #[trigger] s@.contains(x) ==> self.env().start(x) != pc,
            decreases self.env().n() - b,
        {
            if self.cfg.blocks[b].start == pc && s.contains(&b) {
                assert(self.env().start(b) == pc);
                return true;
            }
            b += 1;
        }
        false
    }

    pub(crate) fn is_spanned(&self, b: usize, gi: usize) -> (r: bool)
        requires
            self.wf(),
            gi < self.groups@.len(),
        ensures
            r == self.env().spanned(b, gi),
    {
        b < self.cfg.blocks.len() && self.cfg.blocks[b].ins_len != 0 && self.spans(gi, b)
    }

    /// The blocks in the span of a group that `seed` enters at its start.
    fn drawn_set(&self, seed: &HashSet<usize>) -> (r: HashSet<usize>)
        requires
            self.wf(),
        ensures
            forall|b: usize| #[trigger] r@.contains(b) <==> self.env().drawn_in(seed@, b),
    {
        let ghost e = self.env();
        let mut r: HashSet<usize> = HashSet::new();
        let n = self.n();
        let mut x: usize = 0;
        while x < n
            invariant
                self.wf(),
                e == self.env(),
                n == e.n(),
                x <= n,
                forall|b: usize|
                    #[trigger] r@.contains(b) <==> exists|y: usize|
                        y < x && #[trigger] seed@.contains(y) && e.body.dom().contains(y) && e.holds_start(e.body[y], seed@)
                            && e.spanned(b, e.body[y]),
            decreases n - x,
        {
            let ghost r0 = r@;
            let og = if seed.contains(&x) {
                self.body_of(x)
            } else {
                None
            };
            if let Some(gi) = og {
                if self.is_start_held(gi, seed) {
                    let mut b: usize = 0;
                    while b < n
                        invariant
                            self.wf(),
                            e == self.env(),
                            n == e.n(),
                            b <= n,
                            gi < self.groups@.len(),
                            forall|y: usize| #[trigger] r@.contains(y) <==> r0.contains(y) || (y < b && e.spanned(y, gi)),
                        decreases n - b,
                    {
                        if self.is_spanned(b, gi) {
                            r.insert(b);
                        }
                        b += 1;
                    }
                }
            }
            assert forall|b: usize|
                #[trigger] r@.contains(b) <==> exists|y: usize|
                    y < x + 1 && #[trigger] seed@.contains(y) && e.body.dom().contains(y) && e.holds_start(e.body[y], seed@)
                        && e.spanned(b, e.body[y]) by {
                if r0.contains(b) {
                    let y = choose|y: usize|
                        y < x && #[trigger] seed@.contains(y) && e.body.dom().contains(y) && e.holds_start(
                            e.body[y],
                            seed@,
                        ) && e.spanned(b, e.body[y]);
                    assert(seed@.contains(y));
                    assert(r@.contains(b));
                } else if r@.contains(b) {
                    assert(seed@.contains(x));
                }
                if exists|y: usize|
                    y < x + 1 && #[trigger] seed@.contains(y) && e.body.dom().contains(y) && e.holds_start(
                        e.body[y],
                        seed@,
                    ) && e.spanned(b, e.body[y]) {
                    let y = choose|y: usize|
                        y < x + 1 && #[trigger] seed@.contains(y) && e.body.dom().contains(y) && e.holds_start(
                            e.body[y],
                            seed@,
                        ) && e.spanned(b, e.body[y]);
                    if y < x {
                        assert(r0.contains(b));
                    }
                    assert(r@.contains(b));
                }
            }
            x += 1;
        }
        assert forall|b: usize| #[trigger] r@.contains(b) <==> e.drawn_in(seed@, b) by {
            if e.drawn_in(seed@, b) {
                let y = choose|y: usize|
                    #[trigger] seed@.contains(y) && e.body.dom().contains(y) && e.holds_start(e.body[y], seed@) && e.spanned(
                        b,
                        e.body[y],
                    );
                assert(y < n);
            }
        }
        r
    }

    /// The unclaimed blocks that a branch at `from` may structure.
    pub(crate) fn branch_scope(&self, from: usize, universe: &HashSet<usize>, stop: &HashSet<usize>, claimed: &HashSet<usize>) -> (r: HashSet<usize>)
        requires
            self.wf(),
            from < self.env().n(),
        ensures
            r@ == self.env().sub_scope(from, universe@, stop@, claimed@),
            forall|x: usize| #[trigger] r@.contains(x) ==> x < self.env().n(),
    {
        let ghost e = self.env();
        let reached = reachable_within(self.cfg, from, stop);
        let mut seed = copy_set(universe);
        seed.insert(from);
        assert(seed@ =~= universe@.insert(from));
        let drawn = self.drawn_set(&seed);
        let mut r: HashSet<usize> = HashSet::new();
        let mut b: usize = 0;
        while b < self.cfg.blocks.len()
            invariant
                e == self.env(),
                b <= e.n(),
                reached@ == e.reach_within(from, stop@),
                seed@ == universe@.insert(from),
                forall|b: usize| #[trigger] drawn@.contains(b) <==> e.drawn_in(seed@, b),
                forall|x: usize|
                    #[trigger] r@.contains(x) <==> x < b && e.sub_scope(from, universe@, stop@, claimed@).contains(x),
            decreases e.n() - b,
        {
            if b == from || (reached.contains(&b) && (seed.contains(&b) || drawn.contains(&b)) && !claimed.contains(&b)
                && !self.is_handler_block(b)) {
                r.insert(b);
            }
            b += 1;
        }
        assert(r@ =~= e.sub_scope(from, universe@, stop@, claimed@));
        r
    }

    fn does_arm_reach(&self, from: usize, gi: usize, universe: &HashSet<usize>) -> (r: bool)
        requires
            self.wf(),
            from < self.env().n(),
            gi < self.groups@.len(),
        ensures
            r == self.env().arm_reaches(from, gi, universe@),
    {
        assert(self.env().groups[gi as int] == self.groups@[gi as int]@);
        match self.cfg.block_at(self.groups[gi].start) {
            Some(t) => {
                let bar = outside_of(self.cfg, universe);
                flow_finds(self.cfg, from, t, &bar, 1024)
            },
            None => false,
        }
    }

    fn is_ownable_by(&self, b: usize, x: usize, universe: &HashSet<usize>) -> (r: bool)
        requires
            self.wf(),
            b < self.env().n(),
            self.env().body.dom().contains(b),
        ensures
            r == self.env().ownable_by(b, x, universe@),
    {
        match (self.body_of(x), self.body_of(b)) {
            (Some(og), Some(gi)) => {
                let o = &self.groups[og];
                let g = &self.groups[gi];
                assert(self.env().groups[gi as int] == g@);
                assert(self.env().groups[og as int] == o@);
                og == gi || (o.start >= g.start && o.end <= g.end) || (o.start <= g.start && o.end >= g.end) || (o.start
                    >= g.end && self.does_arm_reach(b, og, universe))
            },
            _ => true,
        }
    }

    fn does_touch(&self, out: &HashSet<usize>, gi: usize) -> (r: bool)
        requires
            self.wf(),
        ensures
            r == self.env().touches(out@, gi),
    {
        let ghost e = self.env();
        let mut x: usize = 0;
        while x < self.cfg.blocks.len()
            invariant
                e == self.env(),
                x <= e.n(),
                forall|y: usize| y < x && #[trigger] out@.contains(y) ==> !e.in_body(y, gi),
            decreases e.n() - x,
        {
            if out.contains(&x) && self.is_in_body(x, gi) {
                return true;
            }
            x += 1;
        }
        assert forall|y: usize| #[trigger] out@.contains(y) implies !e.in_body(y, gi) by {
            if e.body.dom().contains(y) {
                assert(y < e.n());
            }
        }
        false
    }

    fn does_handle_any(&self, out: &HashSet<usize>, gi: usize) -> (r: bool)
        requires
            self.wf(),
        ensures
            r == exists|x: usize| #[trigger] out@.contains(x) && self.env().handles(x, gi),
    {
        let ghost e = self.env();
        let mut x: usize = 0;
        while x < self.cfg.blocks.len()
            invariant
                e == self.env(),
                x <= e.n(),
                forall|y: usize| y < x && #[trigger] out@.contains(y) ==> !e.handles(y, gi),
            decreases e.n() - x,
        {
            if out.contains(&x) && self.does_handle(x, gi) {
                return true;
            }
            x += 1;
        }
        assert forall|y: usize| #[trigger] out@.contains(y) implies !e.handles(y, gi) by {
            if e.handler.dom().contains(y) {
                assert(y < e.n());
            }
        }
        false
    }

    #[verifier::loop_isolation(false)]
    fn is_orphan(&self, t: usize, out: &HashSet<usize>, structuring: &Vec<usize>) -> (r: bool)
        requires
            self.wf(),
        ensures
            r == self.env().orphan(t, out@, structuring@),
    {
        let ghost e = self.env();
        let ogi = match self.body_of(t) {
            Some(g) => g,
            None => {
                return false;
            },
        };
        if list_has(structuring, ogi) || self.is_start_held(ogi, out) {
            return false;
        }
        if self.does_touch(out, ogi) || self.does_handle_any(out, ogi) {
            return false;
        }
        let og = &self.groups[ogi];
        assert(e.groups[ogi as int] == og@);
        let mut gi: usize = 0;
        while gi < self.groups.len()
            invariant
                gi <= self.groups@.len(),
                forall|j: usize|
                    j < gi && #[trigger] e.touches(out@, j) ==> !(e.groups[j as int].start <= og.start
                        && e.groups[j as int].end >= og.end),
            decreases self.groups@.len() - gi,
        {
            let g = &self.groups[gi];
            assert(e.groups[gi as int] == g@);
            if g.start <= og.start && g.end >= og.end && self.does_touch(out, gi) {
                return false;
            }
            gi += 1;
        }
        true
    }

    /// A group's span blocks, its handler heads, and the chain behind it.
    #[verifier::loop_isolation(false)]
    fn group_blocks(&self, gi: usize) -> (r: Vec<usize>)
        requires
            self.wf(),
            gi < self.groups@.len(),
        ensures
            r@ == self.env().whole_group(gi),
            forall|i: int| 0 <= i < r@.len() ==> #[trigger] r@[i] < self.env().n(),
    {
        let ghost e = self.env();
        let n = self.n();
        let mut r: Vec<usize> = Vec::new();
        let mut b: usize = 0;
        assert(r@ + e.span_from(gi, 0) =~= e.span_from(gi, 0));
        while b < n
            invariant
                b <= n,
                r@ + e.span_from(gi, b as nat) == e.span_from(gi, 0),
                forall|i: int| 0 <= i < r@.len() ==> #[trigger] r@[i] < e.n(),
            decreases n - b,
        {
            let ghost r0 = r@;
            if self.is_spanned(b, gi) {
                r.push(b);
                assert(r0 + (seq![b] + e.span_from(gi, (b + 1) as nat)) =~= r@ + e.span_from(gi, (b + 1) as nat));
            }
            b += 1;
        }
        assert(r@ =~= e.span_from(gi, 0));
        let ghost first = r@;
        assert(r@ + e.heads_from(gi, 0) =~= first + e.heads_from(gi, 0));
        b = 0;
        while b < n
            invariant
                b <= n,
                r@ + e.heads_from(gi, b as nat) == first + e.heads_from(gi, 0),
                forall|i: int| 0 <= i < r@.len() ==> #[trigger] r@[i] < e.n(),
            decreases n - b,
        {
            let ghost r0 = r@;
            if self.does_handle(b, gi) {
                r.push(b);
                assert(r0 + (seq![b] + e.heads_from(gi, (b + 1) as nat)) =~= r@ + e.heads_from(gi, (b + 1) as nat));
            }
            b += 1;
        }
        assert(r@ =~= first + e.heads_from(gi, 0));
        let ghost second = r@;
        let mut pc = self.groups[gi].end;
        assert(e.groups[gi as int] == self.groups@[gi as int]@);
        let mut fuel: usize = 8;
        while fuel > 0
            invariant
                fuel <= 8,
                r@ + e.tail_from(pc, fuel as nat) == second + e.tail_from(e.groups[gi as int].end, 8),
                forall|i: int| 0 <= i < r@.len() ==> #[trigger] r@[i] < e.n(),
            decreases fuel,
        {
            let b = match self.cfg.block_at(pc) {
                Some(b) => b,
                None => {
                    assert(r@ =~= r@ + e.tail_from(pc, fuel as nat));
                    return r;
                },
            };
            if self.body_group.contains_key(&b) {
                assert(r@ =~= r@ + e.tail_from(pc, fuel as nat));
                return r;
            }
            let ghost r0 = r@;
            r.push(b);
            match self.hop_of(b) {
                Some(y) => {
                    let ghost rest = e.tail_from(e.start(y), (fuel - 1) as nat);
                    assert(r0 + (seq![b] + rest) =~= r@ + rest);
                    pc = self.cfg.blocks[y].start;
                    fuel -= 1;
                },
                None => {
                    assert(r0 + seq![b] =~= r@);
                    return r;
                },
            }
        }
        assert(e.tail_from(pc, 0) =~= Seq::<usize>::empty());
        assert(r@ =~= r@ + e.tail_from(pc, 0));
        r
    }

    #[verifier::loop_isolation(false)]
    fn adopt(&self, list: &Vec<usize>, out: &mut HashSet<usize>, todo: &mut Vec<usize>, structuring: &Vec<usize>)
        requires
            self.wf(),
            forall|i: int| 0 <= i < list@.len() ==> #[trigger] list@[i] < self.env().n(),
            forall|i: int| 0 <= i < old(todo)@.len() ==> #[trigger] old(todo)@[i] < self.env().n(),
            forall|x: usize| #[trigger] old(out)@.contains(x) ==> x < self.env().n(),
        ensures
            (final(out)@, final(todo)@) == self.env().adopt_from(list@, 0, old(out)@, old(todo)@, structuring@),
            forall|i: int| 0 <= i < final(todo)@.len() ==> #[trigger] final(todo)@[i] < self.env().n(),
            forall|x: usize| #[trigger] final(out)@.contains(x) ==> x < self.env().n(),
    {
        let ghost e = self.env();
        let ghost want = e.adopt_from(list@, 0, out@, todo@, structuring@);
        let mut k: usize = 0;
        while k < list.len()
            invariant
                k <= list@.len(),
                e.adopt_from(list@, k as nat, out@, todo@, structuring@) == want,
                forall|i: int| 0 <= i < todo@.len() ==> #[trigger] todo@[i] < e.n(),
                forall|x: usize| #[trigger] out@.contains(x) ==> x < e.n(),
            decreases list@.len() - k,
        {
            let t = list[k];
            if out.contains(&t) {
                todo.push(t);
            } else if self.is_orphan(t, out, structuring) {
                let ogi = match self.body_of(t) {
                    Some(g) => g,
                    None => 0,
                };
                assert(e.body.dom().contains(t));
                let w = self.group_blocks(ogi);
                let ghost t0 = todo@;
                let ghost o0 = out@;
                crate::sets::extend_seq(out, &w);
                assert forall|x: usize| #[trigger] out@.contains(x) implies x < e.n() by {
                    if !o0.contains(x) {
                        assert(w@.contains(x));
                    }
                }
                let mut i: usize = 0;
                while i < w.len()
                    invariant
                        i <= w@.len(),
                        todo@ == t0 + w@.take(i as int),
                    decreases w@.len() - i,
                {
                    todo.push(w[i]);
                    i += 1;
                    assert(w@.take(i as int) =~= w@.take(i - 1).push(w@[i - 1]));
                }
                assert(w@.take(i as int) =~= w@);
            }
            k += 1;
        }
    }

    /// The blocks that a branch at `b` may structure: its group's relatives and
    /// the whole orphan groups that its flow comes to.
    #[verifier::loop_isolation(false)]
    pub(crate) fn owner_scope(&self, b: usize, universe: &HashSet<usize>, structuring: &Vec<usize>) -> (r: HashSet<usize>)
        requires
            self.wf(),
            b < self.env().n(),
            forall|x: usize| #[trigger] universe@.contains(x) ==> x < self.env().n(),
        ensures
            r@ == self.env().owner_scope(b, universe@, structuring@),
            forall|x: usize| #[trigger] r@.contains(x) ==> x < self.env().n(),
    {
        let ghost e = self.env();
        let mut out: HashSet<usize> = HashSet::new();
        if self.body_group.contains_key(&b) {
            let mut x: usize = 0;
            while x < self.cfg.blocks.len()
                invariant
                    x <= e.n(),
                    forall|y: usize|
                        #[trigger] out@.contains(y) <==> y < x && universe@.contains(y) && e.ownable_by(b, y, universe@),
                decreases e.n() - x,
            {
                if universe.contains(&x) && self.is_ownable_by(b, x, universe) {
                    out.insert(x);
                }
                x += 1;
            }
        } else {
            out = copy_set(universe);
        }
        assert(out@ =~= e.owner_base(b, universe@));
        let mut todo: Vec<usize> = Vec::new();
        todo.push(b);
        assert(todo@ =~= seq![b]);
        let mut seen: HashSet<usize> = HashSet::new();
        assert(seen@ =~= Set::empty());
        let mut fuel: usize = 512;
        let ghost want = e.owner_scope(b, universe@, structuring@);
        while todo.len() > 0 && fuel > 0
            invariant
                e.adopted(out@, todo@, seen@, structuring@, fuel as nat) == want,
                forall|i: int| 0 <= i < todo@.len() ==> #[trigger] todo@[i] < e.n(),
                forall|x: usize| #[trigger] out@.contains(x) ==> x < e.n(),
            decreases fuel,
        {
            let ghost t0 = todo@;
            let x = todo.pop().unwrap();
            assert(todo@ == t0.drop_last());
            assert(x == t0[t0.len() - 1]);
            fuel -= 1;
            if seen.contains(&x) {
                continue;
            }
            seen.insert(x);
            if !out.contains(&x) {
                continue;
            }
            self.adopt(self.succ_of(x), &mut out, &mut todo, structuring);
        }
        out
    }
}

} // verus!
