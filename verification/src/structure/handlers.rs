//! What a try region holds: its body, its handlers and what each handler may walk.

use std::collections::HashSet;

use vstd::prelude::*;

use crate::ir::Term;
use crate::structure::env;
use crate::structure::env::Env;
use crate::structure::graph::{flood, flood_lists, reachable_within, Graph};
use crate::structure::query::is_monitor_stmt;
use crate::structure::region;
use crate::structure::scope::owned_flow;
use crate::structure::structurer::Structurer;

verus! {

broadcast use vstd::std_specs::hash::group_hash_axioms;

impl Env {
    // -- the body --------------------------------------------------------------------

    /// The span of `j` lies in the span of `gi`.
    pub open spec fn inside(self, j: usize, gi: usize) -> bool {
        self.groups[j as int].start >= self.groups[gi as int].start && self.groups[j as int].end
            <= self.groups[gi as int].end
    }

    /// Of the first `k` groups, the others inside `gi`.
    pub open spec fn nested_upto(self, gi: usize, k: nat) -> Seq<usize>
        decreases k,
    {
        if k == 0 {
            Seq::empty()
        } else {
            let v = self.nested_upto(gi, (k - 1) as nat);
            if k - 1 != gi && self.inside((k - 1) as usize, gi) {
                v.push((k - 1) as usize)
            } else {
                v
            }
        }
    }

    pub open spec fn nested(self, gi: usize) -> Seq<usize> {
        self.nested_upto(gi, self.groups.len())
    }

    /// The blocks of the group and of the groups inside it.
    pub open spec fn own_body(self, gi: usize, universe: Set<usize>) -> Set<usize> {
        Set::new(
            |b: usize|
                universe.contains(b) && self.body.dom().contains(b) && (self.body[b] == gi || self.inside(self.body[b], gi)),
        )
    }

    /// Only the group's flow comes to `b`.
    pub open spec fn private_to(self, gi: usize, b: usize, body: Set<usize>, loops: Seq<usize>) -> bool {
        &&& self.pred(b).len() > 0
        &&& forall|k: int|
            0 <= k < self.pred(b).len() ==> self.in_body(#[trigger] self.pred(b)[k], gi) || self.handles(
                self.pred(b)[k],
                gi,
            ) || self.handler_flow(gi, loops).contains(self.pred(b)[k]) || body.contains(self.pred(b)[k])
    }

    /// The block behind the span is a bare return or throw of this group alone.
    pub open spec fn adopts_end(self, gi: usize, body: Set<usize>, loops: Seq<usize>) -> Option<usize> {
        match self.cfg.at(self.groups[gi as int].end) {
            Some(cb) => if !body.contains(cb) && self.is_terminator(cb) && self.quiet(cb) && !self.is_handler(cb)
                && self.private_to(gi, cb, body, loops) {
                Some(cb)
            } else {
                None
            },
            None => None,
        }
    }

    pub open spec fn body_with_end(self, gi: usize, universe: Set<usize>, loops: Seq<usize>) -> Set<usize> {
        let body = self.own_body(gi, universe);
        match self.adopts_end(gi, body, loops) {
            Some(cb) => body.insert(cb),
            None => body,
        }
    }

    /// From `k` on: the first body block where the group starts.
    pub open spec fn body_entry(self, gi: usize, body: Set<usize>, k: nat) -> Option<usize>
        decreases self.n() - k,
    {
        if k >= self.n() {
            None
        } else if self.start(k as usize) == self.groups[gi as int].start && body.contains(k as usize) {
            Some(k as usize)
        } else {
            self.body_entry(gi, body, k + 1)
        }
    }

    /// The block belongs to no group, or to one that nests with `gi`.
    pub open spec fn related(self, b: usize, gi: usize) -> bool {
        self.body.dom().contains(b) ==> self.body[b] == gi || self.nests(self.body[b], gi)
    }

    /// The block does nothing but enter or leave monitors.
    pub open spec fn monitors_only(self, b: usize) -> bool {
        forall|i: int|
            0 <= i < self.results[b as int].stmts@.len() ==> env::is_monitor(#[trigger] self.results[b as int].stmts@[i])
    }

    /// The body with the chain behind `x` that only releases monitors and returns.
    pub open spec fn released(self, gi: usize, x: usize, body: Set<usize>, fuel: nat) -> Set<usize>
        decreases fuel,
    {
        if fuel == 0 || self.succ(x).len() != 1 {
            body
        } else {
            let y = self.succ(x)[0];
            if body.contains(y) || self.is_handler(y) || !self.related(y, gi) || !self.monitors_only(y) {
                body
            } else if self.term(y) is Fallthrough {
                self.released(gi, y, body.insert(y), (fuel - 1) as nat)
            } else if self.term(y) is Return {
                body.insert(y)
            } else {
                body
            }
        }
    }

    /// The blocks that the body of the try may walk.
    pub open spec fn try_body(self, gi: usize, universe: Set<usize>, loops: Seq<usize>) -> Set<usize> {
        let body = self.body_with_end(gi, universe, loops);
        match self.body_entry(gi, body, 0) {
            Some(eb) => if self.term(eb) is Fallthrough && self.results[eb as int].out_stack@.len() == 1 {
                self.released(gi, eb, body, 4)
            } else {
                body
            },
            None => body,
        }
    }

    // -- the handlers ------------------------------------------------------------------

    /// The first `k` handlers of the group: caught types and head, rows of one
    /// head in a run merged.
    pub open spec fn handlers_upto(self, gi: usize, k: nat) -> Seq<(Seq<Seq<char>>, usize)>
        decreases k,
    {
        if k == 0 {
            Seq::empty()
        } else {
            let v = self.handlers_upto(gi, (k - 1) as nat);
            let h = self.groups[gi as int].handlers[k - 1];
            match self.cfg.at(h.0) {
                Some(hb) => if !self.handles(hb, gi) {
                    v
                } else if v.len() > 0 && v.last().1 == hb {
                    match h.1 {
                        Some(t) => v.drop_last().push((v.last().0.push(t), hb)),
                        None => v,
                    }
                } else {
                    match h.1 {
                        Some(t) => v.push((seq![t], hb)),
                        None => v.push((Seq::empty(), hb)),
                    }
                },
                None => v,
            }
        }
    }

    pub open spec fn merged_handlers(self, gi: usize) -> Seq<(Seq<Seq<char>>, usize)> {
        self.handlers_upto(gi, self.groups[gi as int].handlers.len())
    }

    /// Where the handler at `hb` stops: the body and the other handlers.
    pub open spec fn handler_stop(self, gi: usize, hb: usize, universe: Set<usize>) -> Set<usize> {
        Set::new(|b: usize| (universe.contains(b) && self.in_body(b, gi)) || (b != hb && self.heads(gi, b)))
    }

    /// What the handler reaches outside bodies before the group's end and other handlers.
    pub open spec fn handler_reach(self, gi: usize, hb: usize, universe: Set<usize>) -> Set<usize> {
        self.reach_within(hb, self.handler_stop(gi, hb, universe)).filter(
            |b: usize|
                !(self.body.dom().contains(b) && self.start(b) < self.groups[gi as int].end) && (!self.is_handler(b) || b
                    == hb),
        )
    }

    /// Some known loop header comes behind the jump block.
    pub open spec fn back_stub(self, b: usize, loops: Seq<usize>) -> bool {
        self.term(b) is Goto && self.succ(b).len() == 1 && self.stub_header(self.succ(b)[0], loops) is Some
    }

    /// From `k` on: the first header in `loops` that `t` is or statement-free flow leads to.
    pub open spec fn first_header(self, t: usize, loops: Seq<usize>, k: nat) -> Option<usize>
        decreases loops.len() - k,
    {
        if k >= loops.len() {
            None
        } else if loops[k as int] == t || self.stub_chain(t, loops[k as int]) {
            Some(loops[k as int])
        } else {
            self.first_header(t, loops, k + 1)
        }
    }

    /// From `k` on: the first known header that `t` is or statement-free flow leads to.
    pub open spec fn known_header(self, t: usize, k: nat) -> Option<usize>
        decreases self.n() - k,
    {
        if k >= self.n() {
            None
        } else if self.headers.contains(k as usize) && (k as usize == t || self.stub_chain(t, k as usize)) {
            Some(k as usize)
        } else {
            self.known_header(t, k + 1)
        }
    }

    /// The loop header that statement-free flow from `t` leads to.
    pub open spec fn stub_header(self, t: usize, loops: Seq<usize>) -> Option<usize> {
        match self.first_header(t, loops, 0) {
            Some(h) => Some(h),
            None => self.known_header(t, 0),
        }
    }

    /// Claimed normal flow from outside the group comes to `b`.
    pub open spec fn claimed_feeds(self, gi: usize, b: usize, claimed: Set<usize>) -> bool {
        exists|k: int|
            0 <= k < self.pred(b).len() && claimed.contains(#[trigger] self.pred(b)[k]) && !self.is_handler(self.pred(b)[k])
                && !self.in_body(self.pred(b)[k], gi)
    }

    /// Blocks of the handler's reach where it merges with structured flow.
    pub open spec fn shared_merges(self, gi: usize, hb: usize, reach: Set<usize>, claimed: Set<usize>, loops: Seq<usize>) -> Set<usize> {
        reach.filter(
            |b: usize|
                b != hb && !self.handler_flow(gi, loops).contains(b) && !claimed.contains(b) && !self.back_stub(b, loops)
                    && !self.in_body(b, gi) && !self.handles(b, gi) && self.claimed_feeds(gi, b, claimed),
        )
    }

    /// All blocks that flow from `b` comes to.
    pub open spec fn all_behind(self, b: usize) -> Set<usize> {
        self.cfg.flow(Set::empty()).reach(b)
    }

    /// The reach without what lies behind the first merge with structured flow.
    pub open spec fn before_merges(self, gi: usize, hb: usize, reach: Set<usize>, claimed: Set<usize>, loops: Seq<usize>) -> Set<usize> {
        let merges = self.ordered(self.shared_merges(gi, hb, reach, claimed, loops));
        if merges.len() == 0 {
            reach
        } else {
            let behind = self.all_behind(merges[0]);
            reach.filter(|b: usize| !behind.contains(b) || b == hb || self.handler_flow(gi, loops).contains(b))
        }
    }

    // -- a handler that stands right behind its body ----------------------------------------

    /// From block `k` on: the first that goes on behind group `j`.
    pub open spec fn behind_group(self, j: usize, loops: Seq<usize>, k: nat) -> Option<usize>
        decreases self.n() - k,
    {
        if k >= self.n() {
            None
        } else {
            let b = k as usize;
            if self.start(b) < self.groups[j as int].end || self.cfg.len(b) == 0 || self.is_handler(b) || self.handler_flow(
                j,
                loops,
            ).contains(b) {
                self.behind_group(j, loops, k + 1)
            } else {
                Some(b)
            }
        }
    }

    /// The span of `j` fits in the span of `og`, or in its first offset.
    pub open spec fn fits(self, j: usize, og: usize) -> bool {
        let x = self.groups[j as int];
        let y = self.groups[og as int];
        x.start >= y.start && (x.end <= y.end || x.end <= y.start + 1)
    }

    /// From group `j` on: where flow goes on behind a group inside `og` that holds `x`.
    pub open spec fn goes_on_at(self, og: usize, x: usize, loops: Seq<usize>, j: nat) -> Option<usize>
        decreases self.groups.len() - j,
    {
        if j >= self.groups.len() {
            None
        } else {
            let g = self.groups[j as int];
            if j != og && self.fits(j as usize, og) && self.behind_group(j as usize, loops, 0) is Some && self.cfg.len(x)
                != 0 && self.start(x) >= self.groups[og as int].start && (self.end(x) <= g.end || self.end(x) <= g.start
                + 1) && !self.is_handler(x) {
                self.behind_group(j as usize, loops, 0)
            } else {
                self.goes_on_at(og, x, loops, j + 1)
            }
        }
    }

    /// Flow inside the span of `og`: normal edges, and past the groups inside it.
    pub open spec fn span_flow(self, og: usize, loops: Seq<usize>) -> Graph {
        Graph {
            adj: Seq::new(
                self.n(),
                |i: int|
                    match self.goes_on_at(og, i as usize, loops, 0) {
                        Some(c) => self.succ(i as usize).push(c),
                        None => self.succ(i as usize),
                    },
            ),
            bar: Set::new(|b: usize| b < self.n() && !(self.in_span(b, self.groups[og as int]) && !self.is_handler(b))),
        }
    }

    /// `x` is reached from the start of its group inside the span.
    pub open spec fn body_reaches(self, og: usize, x: usize, loops: Seq<usize>) -> bool {
        match self.cfg.at(self.groups[og as int].start) {
            Some(b) => self.span_flow(og, loops).reaches(b, x),
            None => false,
        }
    }

    /// `x` may be the handler's own: not the reached body of another group, no other handler.
    pub open spec fn may_be_private(self, gi: usize, hb: usize, loops: Seq<usize>) -> Set<usize> {
        Set::new(
            |x: usize|
                x < self.n() && x != hb && !(self.body.dom().contains(x) && self.body[x] != gi && self.body_reaches(
                    self.body[x],
                    x,
                    loops,
                )) && !(self.is_handler(x) && self.handler[x] != gi),
        )
    }

    /// The blocks that only the handler at `hb` comes to.
    pub open spec fn private_flow(self, gi: usize, hb: usize, loops: Seq<usize>) -> Set<usize> {
        self.cfg.owned_flow(
            Set::empty().insert(hb),
            self.may_be_private(gi, hb, loops),
            self.handler_sides(gi, hb),
        )
    }

    /// The handler at `hb` and the other heads of its group.
    pub open spec fn handler_sides(self, gi: usize, hb: usize) -> Set<usize> {
        Set::new(|p: usize| p < self.n() && (p == hb || self.handles(p, gi)))
    }

    /// Only handlers come to `b`.
    pub open spec fn only_handlers_enter(self, b: usize) -> bool {
        forall|k: int| 0 <= k < self.pred(b).len() ==> self.is_handler(#[trigger] self.pred(b)[k])
    }

    /// The blocks that the handler at `hb` may walk.
    pub open spec fn handler_scope(
        self,
        gi: usize,
        hb: usize,
        universe: Set<usize>,
        claimed: Set<usize>,
        goes_on: bool,
        loops: Seq<usize>,
    ) -> Set<usize> {
        let hu = self.before_merges(gi, hb, self.handler_reach(gi, hb, universe), claimed, loops);
        let kept = match self.cfg.at(self.groups[gi as int].end) {
            Some(cont) => if cont == hb {
                if self.only_handlers_enter(hb) {
                    hu.filter(
                        |b: usize| !self.all_behind(cont).contains(b) || self.private_flow(gi, hb, loops).contains(b),
                    )
                } else {
                    hu
                }
            } else if goes_on && !self.is_handler(cont) && !self.handler_flow(gi, loops).contains(cont) {
                hu.filter(|b: usize| !self.all_behind(cont).contains(b) || self.handler_flow(gi, loops).contains(b))
            } else {
                hu
            },
            None => hu,
        };
        kept.insert(hb)
    }

    /// A handler of the group other than at its own start.
    pub open spec fn catches_elsewhere(self, j: usize) -> bool {
        exists|i: int|
            0 <= i < self.groups[j as int].handlers.len() && (#[trigger] self.groups[j as int].handlers[i]).0
                != self.groups[j as int].start
    }

    /// The group lies between the first and the last offset of `hu`.
    pub open spec fn lies_in(self, j: usize, hu: Set<usize>) -> bool {
        &&& exists|b: usize| #[trigger] hu.contains(b) && self.start(b) <= self.groups[j as int].start
        &&& exists|b: usize| #[trigger] hu.contains(b) && self.end(b) >= self.groups[j as int].end
    }

    /// Of the first `k` groups, those that a handler of `gi` walking `hu` may open.
    pub open spec fn handler_active(self, gi: usize, hu: Set<usize>, k: nat) -> Seq<usize>
        decreases k,
    {
        if k == 0 {
            Seq::empty()
        } else {
            let v = self.handler_active(gi, hu, (k - 1) as nat);
            let j = (k - 1) as usize;
            if j != gi && self.lies_in(j, hu) && self.catches_elsewhere(j) {
                v.push(j)
            } else {
                v
            }
        }
    }

    // -- the outermost groups --------------------------------------------------------------

    /// Another group with a wider span holds the group.
    pub open spec fn enclosed(self, gi: usize) -> bool {
        exists|j: usize|
            j < self.groups.len() && j != gi && #[trigger] self.inside(gi, j) && (self.groups[j as int].start
                != self.groups[gi as int].start || self.groups[j as int].end != self.groups[gi as int].end)
    }

    pub open spec fn top_groups(self, k: nat) -> Seq<usize>
        decreases k,
    {
        if k == 0 {
            Seq::empty()
        } else {
            let v = self.top_groups((k - 1) as nat);
            if self.enclosed((k - 1) as usize) {
                v
            } else {
                v.push((k - 1) as usize)
            }
        }
    }
}

impl<'a> Structurer<'a> {
    fn is_inside(&self, j: usize, gi: usize) -> (r: bool)
        requires
            j < self.groups@.len(),
            gi < self.groups@.len(),
        ensures
            r == self.env().inside(j, gi),
    {
        assert(self.env().groups[j as int] == self.groups@[j as int]@);
        assert(self.env().groups[gi as int] == self.groups@[gi as int]@);
        self.groups[j].start >= self.groups[gi].start && self.groups[j].end <= self.groups[gi].end
    }

    /// The other groups inside `gi`.
    pub(crate) fn nested_groups(&self, gi: usize) -> (r: Vec<usize>)
        requires
            gi < self.groups@.len(),
        ensures
            r@ == self.env().nested(gi),
            self.groups_ok(r@),
    {
        let mut r: Vec<usize> = Vec::new();
        let mut j: usize = 0;
        while j < self.groups.len()
            invariant
                gi < self.groups@.len(),
                j <= self.groups@.len(),
                r@ == self.env().nested_upto(gi, j as nat),
                self.groups_ok(r@),
            decreases self.groups@.len() - j,
        {
            if j != gi && self.is_inside(j, gi) {
                r.push(j);
            }
            j += 1;
        }
        r
    }

    #[verifier::loop_isolation(false)]
    fn is_private_to(&self, gi: usize, b: usize, body: &HashSet<usize>, own: &HashSet<usize>, Ghost(loops): Ghost<Seq<usize>>) -> (r: bool)
        requires
            self.wf(),
            b < self.env().n(),
            own@ == self.env().handler_flow(gi, loops),
        ensures
            r == self.env().private_to(gi, b, body@, loops),
    {
        let ghost e = self.env();
        let preds = self.pred_of(b);
        if preds.len() == 0 {
            return false;
        }
        let mut k: usize = 0;
        while k < preds.len()
            invariant
                k <= preds@.len(),
                forall|j: int|
                    0 <= j < k ==> e.in_body(#[trigger] e.pred(b)[j], gi) || e.handles(e.pred(b)[j], gi)
                        || own@.contains(e.pred(b)[j]) || body@.contains(e.pred(b)[j]),
            decreases preds@.len() - k,
        {
            let p = preds[k];
            assert(p == e.pred(b)[k as int]);
            if !(self.is_in_body(p, gi) || self.does_handle(p, gi) || own.contains(&p) || body.contains(&p)) {
                return false;
            }
            k += 1;
        }
        true
    }

    #[verifier::loop_isolation(false)]
    fn is_monitors_only(&self, b: usize) -> (r: bool)
        requires
            self.wf(),
            b < self.env().n(),
        ensures
            r == self.env().monitors_only(b),
    {
        let ghost e = self.env();
        let stmts = &self.results[b].stmts;
        let mut i: usize = 0;
        while i < stmts.len()
            invariant
                i <= stmts@.len(),
                forall|j: int| 0 <= j < i ==> env::is_monitor(#[trigger] e.results[b as int].stmts@[j]),
            decreases stmts@.len() - i,
        {
            if !is_monitor_stmt(&stmts[i]) {
                assert(!env::is_monitor(e.results[b as int].stmts@[i as int]));
                return false;
            }
            i += 1;
        }
        true
    }

    fn is_related(&self, b: usize, gi: usize) -> (r: bool)
        requires
            self.wf(),
            gi < self.groups@.len(),
        ensures
            r == self.env().related(b, gi),
    {
        match self.body_of(b) {
            Some(og) => {
                assert(self.env().body.dom().contains(b));
                og == gi || self.is_inside(og, gi) || self.is_inside(gi, og)
            },
            None => true,
        }
    }

    /// The blocks that the body of the try may walk.
    #[verifier::loop_isolation(false)]
    pub(crate) fn body_universe(&self, gi: usize, universe: &HashSet<usize>, loops: &Vec<usize>) -> (r: HashSet<usize>)
        requires
            self.wf(),
            gi < self.groups@.len(),
        ensures
            r@ == self.env().try_body(gi, universe@, loops@),
            forall|x: usize| #[trigger] r@.contains(x) ==> x < self.env().n(),
    {
        let ghost e = self.env();
        let g = &self.groups[gi];
        assert(e.groups[gi as int] == g@);
        let mut body: HashSet<usize> = HashSet::new();
        let mut b: usize = 0;
        while b < self.cfg.blocks.len()
            invariant
                b <= e.n(),
                forall|x: usize| #[trigger] body@.contains(x) <==> x < b && e.own_body(gi, universe@).contains(x),
            decreases e.n() - b,
        {
            if universe.contains(&b) {
                if let Some(og) = self.body_of(b) {
                    assert(e.body.dom().contains(b));
                    if og == gi || self.is_inside(og, gi) {
                        body.insert(b);
                    }
                }
            }
            b += 1;
        }
        assert forall|x: usize| e.own_body(gi, universe@).contains(x) implies x < e.n() by {
            assert(e.body.dom().contains(x));
        }
        assert(body@ =~= e.own_body(gi, universe@));
        if let Some(cb) = self.cfg.block_at(g.end) {
            let own = self.handler_flow_only(gi, loops);
            if !body.contains(&cb) && self.is_terminator_block(cb) && self.is_quiet(cb) && !self.is_handler_block(cb)
                && self.is_private_to(gi, cb, &body, &own, Ghost(loops@)) {
                body.insert(cb);
            }
        }
        assert(body@ == e.body_with_end(gi, universe@, loops@));
        let ghost body0 = body@;
        let mut k: usize = 0;
        while k < self.cfg.blocks.len() && !(self.cfg.blocks[k].start == g.start && body.contains(&k))
            invariant
                k <= e.n(),
                e.body_entry(gi, body0, k as nat) == e.body_entry(gi, body0, 0),
            decreases e.n() - k,
        {
            k += 1;
        }
        if k == self.cfg.blocks.len() {
            return body;
        }
        assert(e.body_entry(gi, body0, 0) == Some(k));
        match self.results[k].term {
            Term::Fallthrough => {},
            _ => {
                return body;
            },
        }
        if self.results[k].out_stack.len() != 1 {
            return body;
        }
        let mut x: usize = k;
        let mut fuel: usize = 4;
        while fuel > 0
            invariant
                x < e.n(),
                e.released(gi, x, body@, fuel as nat) == e.released(gi, k, body0, 4),
                forall|x: usize| #[trigger] body@.contains(x) ==> x < e.n(),
            decreases fuel,
        {
            if self.succ_of(x).len() != 1 {
                return body;
            }
            let y = self.succ_of(x)[0];
            if body.contains(&y) || self.is_handler_block(y) || !self.is_related(y, gi) || !self.is_monitors_only(y) {
                return body;
            }
            match self.results[y].term {
                Term::Fallthrough => {
                    body.insert(y);
                    x = y;
                    fuel -= 1;
                },
                Term::Return(_) => {
                    body.insert(y);
                    return body;
                },
                _ => {
                    return body;
                },
            }
        }
        body
    }

    /// The handlers of the group, rows of one head in a run merged.
    #[verifier::loop_isolation(false)]
    pub(crate) fn merge_handlers(&self, gi: usize) -> (r: Vec<(Vec<String>, usize)>)
        requires
            self.wf(),
            gi < self.groups@.len(),
        ensures
            handler_views(r@) == self.env().merged_handlers(gi),
            forall|i: int| 0 <= i < r@.len() ==> (#[trigger] r@[i]).1 < self.env().n(),
    {
        let ghost e = self.env();
        let g = &self.groups[gi];
        assert(e.groups[gi as int] == g@);
        let mut r: Vec<(Vec<String>, usize)> = Vec::new();
        let mut k: usize = 0;
        assert(handler_views(r@) =~= Seq::empty());
        while k < g.handlers.len()
            invariant
                k <= g.handlers@.len(),
                handler_views(r@) == e.handlers_upto(gi, k as nat),
                forall|i: int| 0 <= i < r@.len() ==> (#[trigger] r@[i]).1 < e.n(),
            decreases g.handlers@.len() - k,
        {
            let row = &g.handlers[k];
            let ghost hv = e.groups[gi as int].handlers[k as int];
            assert(hv.0 == row.0);
            let ghost before = handler_views(r@);
            if let Some(hb) = self.cfg.block_at(row.0) {
                if self.does_handle(hb, gi) {
                    let same = r.len() > 0 && r[r.len() - 1].1 == hb;
                    assert(same ==> before.last() == (region::names(r@[r@.len() - 1].0@), hb));
                    assert(same == (before.len() > 0 && before.last().1 == hb)) by {
                        if before.len() > 0 {
                            assert(before.last().1 == r@[r@.len() - 1].1);
                        }
                    }
                    if same {
                        if let Some(t) = &row.1 {
                            assert(hv.1 == Some(t@));
                            let mut last = r.pop().unwrap();
                            let ghost ns = region::names(last.0@);
                            assert(handler_views(r@) =~= before.drop_last());
                            last.0.push(t.clone());
                            assert(region::names(last.0@) =~= ns.push(t@));
                            let ghost lv = (region::names(last.0@), last.1);
                            let ghost mid = handler_views(r@);
                            r.push(last);
                            assert(handler_views(r@) =~= mid.push(lv));
                        }
                    } else {
                        let mut tys: Vec<String> = Vec::new();
                        if let Some(t) = &row.1 {
                            tys.push(t.clone());
                            assert(region::names(tys@) =~= seq![t@]);
                        } else {
                            assert(region::names(tys@) =~= Seq::empty());
                        }
                        let ghost tv = region::names(tys@);
                        r.push((tys, hb));
                        assert(handler_views(r@) =~= before.push((tv, hb)));
                    }
                }
            }
            k += 1;
        }
        r
    }

    #[verifier::loop_isolation(false)]
    fn does_head(&self, gi: usize, b: usize) -> (r: bool)
        requires
            self.wf(),
            gi < self.groups@.len(),
        ensures
            r == self.env().heads(gi, b),
    {
        let ghost e = self.env();
        let g = &self.groups[gi];
        assert(e.groups[gi as int] == g@);
        let mut j: usize = 0;
        while j < g.handlers.len()
            invariant
                j <= g.handlers@.len(),
                forall|i: int|
                    0 <= i < j ==> e.cfg.at((#[trigger] e.groups[gi as int].handlers[i]).0) != Some(b),
            decreases g.handlers@.len() - j,
        {
            assert(e.groups[gi as int].handlers[j as int].0 == g.handlers@[j as int].0);
            if self.cfg.block_at(g.handlers[j].0) == Some(b) {
                return true;
            }
            j += 1;
        }
        false
    }

    #[verifier::loop_isolation(false)]
    fn reach_of_handler(&self, gi: usize, hb: usize, universe: &HashSet<usize>) -> (r: HashSet<usize>)
        requires
            self.wf(),
            gi < self.groups@.len(),
            hb < self.env().n(),
        ensures
            r@ == self.env().handler_reach(gi, hb, universe@),
            forall|x: usize| #[trigger] r@.contains(x) ==> x < self.env().n(),
    {
        let ghost e = self.env();
        let g = &self.groups[gi];
        assert(e.groups[gi as int] == g@);
        let mut stop: HashSet<usize> = HashSet::new();
        let mut b: usize = 0;
        while b < self.cfg.blocks.len()
            invariant
                b <= e.n(),
                forall|x: usize| #[trigger] stop@.contains(x) <==> x < b && e.handler_stop(gi, hb, universe@).contains(x),
            decreases e.n() - b,
        {
            if (universe.contains(&b) && self.is_in_body(b, gi)) || (b != hb && self.does_head(gi, b)) {
                stop.insert(b);
            }
            b += 1;
        }
        assert forall|x: usize| e.handler_stop(gi, hb, universe@).contains(x) implies x < e.n() by {
            if e.in_body(x, gi) {
                assert(e.body.dom().contains(x));
            } else {
                let j = choose|j: int|
                    0 <= j < e.groups[gi as int].handlers.len() && e.cfg.at(
                        (#[trigger] e.groups[gi as int].handlers[j]).0,
                    ) == Some(x);
                let pc = e.groups[gi as int].handlers[j].0;
                assert(e.cfg.starts_at(pc, x));
            }
        }
        assert(stop@ =~= e.handler_stop(gi, hb, universe@));
        let all = reachable_within(self.cfg, hb, &stop);
        let mut r: HashSet<usize> = HashSet::new();
        b = 0;
        while b < self.cfg.blocks.len()
            invariant
                b <= e.n(),
                forall|x: usize| #[trigger] r@.contains(x) <==> x < b && e.handler_reach(gi, hb, universe@).contains(x),
            decreases e.n() - b,
        {
            if all.contains(&b) && !(self.body_group.contains_key(&b) && self.cfg.blocks[b].start < g.end) && (
            !self.is_handler_block(b) || b == hb) {
                r.insert(b);
            }
            b += 1;
        }
        assert(r@ =~= e.handler_reach(gi, hb, universe@));
        r
    }

    /// The loop header that statement-free flow from `t` leads to.
    #[verifier::loop_isolation(false)]
    pub(crate) fn header_behind(&self, t: usize, loops: &Vec<usize>) -> (r: Option<usize>)
        requires
            self.wf(),
            t < self.env().n(),
        ensures
            r == self.env().stub_header(t, loops@),
            r matches Some(h) ==> h < self.env().n(),
    {
        let ghost e = self.env();
        let mut k: usize = 0;
        while k < loops.len()
            invariant
                k <= loops@.len(),
                e.first_header(t, loops@, k as nat) == e.first_header(t, loops@, 0),
            decreases loops@.len() - k,
        {
            if loops[k] == t || self.is_stub_chain(t, loops[k]) {
                proof {
                    e.lemma_stub_target(t, loops@[k as int], Set::empty(), 8);
                }
                return Some(loops[k]);
            }
            k += 1;
        }
        k = 0;
        while k < self.cfg.blocks.len()
            invariant
                k <= e.n(),
                e.known_header(t, k as nat) == e.known_header(t, 0),
            decreases e.n() - k,
        {
            if self.sese_loop_headers.contains(&k) && (k == t || self.is_stub_chain(t, k)) {
                return Some(k);
            }
            k += 1;
        }
        None
    }

    pub(crate) fn ends_goto(&self, b: usize) -> (r: bool)
        requires
            self.wf(),
            b < self.env().n(),
        ensures
            r == (self.env().term(b) is Goto),
    {
        match self.results[b].term {
            Term::Goto => true,
            _ => false,
        }
    }

    fn is_back_stub(&self, b: usize, loops: &Vec<usize>) -> (r: bool)
        requires
            self.wf(),
            b < self.env().n(),
        ensures
            r == self.env().back_stub(b, loops@),
    {
        self.ends_goto(b) && self.succ_of(b).len() == 1 && self.header_behind(self.succ_of(b)[0], loops).is_some()
    }

    #[verifier::loop_isolation(false)]
    fn does_claimed_feed(&self, gi: usize, b: usize, claimed: &HashSet<usize>) -> (r: bool)
        requires
            self.wf(),
            b < self.env().n(),
        ensures
            r == self.env().claimed_feeds(gi, b, claimed@),
    {
        let ghost e = self.env();
        let preds = self.pred_of(b);
        let mut k: usize = 0;
        while k < preds.len()
            invariant
                k <= preds@.len(),
                forall|j: int|
                    0 <= j < k ==> !(claimed@.contains(#[trigger] e.pred(b)[j]) && !e.is_handler(e.pred(b)[j]) && !e.in_body(
                        e.pred(b)[j],
                        gi,
                    )),
            decreases preds@.len() - k,
        {
            let p = preds[k];
            assert(p == e.pred(b)[k as int]);
            if claimed.contains(&p) && !self.is_handler_block(p) && !self.is_in_body(p, gi) {
                return true;
            }
            k += 1;
        }
        false
    }

    /// The reach without what lies behind the first merge with structured flow.
    #[verifier::loop_isolation(false)]
    fn cut_at_merges(
        &self,
        gi: usize,
        hb: usize,
        reach: HashSet<usize>,
        claimed: &HashSet<usize>,
        own: &HashSet<usize>,
        loops: &Vec<usize>,
    ) -> (r: HashSet<usize>)
        requires
            self.wf(),
            own@ == self.env().handler_flow(gi, loops@),
            forall|x: usize| #[trigger] reach@.contains(x) ==> x < self.env().n(),
        ensures
            r@ == self.env().before_merges(gi, hb, reach@, claimed@, loops@),
            forall|x: usize| #[trigger] r@.contains(x) ==> x < self.env().n(),
    {
        let ghost e = self.env();
        let mut merges: HashSet<usize> = HashSet::new();
        let mut b: usize = 0;
        while b < self.cfg.blocks.len()
            invariant
                b <= e.n(),
                forall|x: usize|
                    #[trigger] merges@.contains(x) <==> x < b && e.shared_merges(gi, hb, reach@, claimed@, loops@).contains(x),
            decreases e.n() - b,
        {
            if reach.contains(&b) && b != hb && !own.contains(&b) && !claimed.contains(&b) && !self.is_back_stub(b, loops)
                && !self.is_in_body(b, gi) && !self.does_handle(b, gi) && self.does_claimed_feed(gi, b, claimed) {
                merges.insert(b);
            }
            b += 1;
        }
        assert(merges@ =~= e.shared_merges(gi, hb, reach@, claimed@, loops@));
        let order = self.in_order(&merges);
        if order.len() == 0 {
            return reach;
        }
        let none: HashSet<usize> = HashSet::new();
        assert(none@ =~= Set::empty());
        let behind = flood(self.cfg, order[0], &none);
        let mut r: HashSet<usize> = HashSet::new();
        b = 0;
        while b < self.cfg.blocks.len()
            invariant
                b <= e.n(),
                forall|x: usize|
                    #[trigger] r@.contains(x) <==> x < b && e.before_merges(gi, hb, reach@, claimed@, loops@).contains(x),
            decreases e.n() - b,
        {
            if reach.contains(&b) && (!behind.contains(&b) || b == hb || own.contains(&b)) {
                r.insert(b);
            }
            b += 1;
        }
        assert(r@ =~= e.before_merges(gi, hb, reach@, claimed@, loops@));
        r
    }

    #[verifier::loop_isolation(false)]
    fn block_behind(&self, j: usize, loops: &Vec<usize>) -> (r: Option<usize>)
        requires
            self.wf(),
            j < self.groups@.len(),
        ensures
            r == self.env().behind_group(j, loops@, 0),
            r matches Some(b) ==> b < self.env().n(),
    {
        let ghost e = self.env();
        let end = self.groups[j].end;
        assert(e.groups[j as int] == self.groups@[j as int]@);
        let own = self.handler_flow_only(j, loops);
        let mut k: usize = 0;
        while k < self.cfg.blocks.len()
            invariant
                k <= e.n(),
                e.behind_group(j, loops@, k as nat) == e.behind_group(j, loops@, 0),
            decreases e.n() - k,
        {
            if !(self.cfg.blocks[k].start < end || self.cfg.blocks[k].ins_len == 0 || self.is_handler_block(k)
                || own.contains(&k)) {
                return Some(k);
            }
            k += 1;
        }
        None
    }

    /// Where flow goes on behind a group inside `og` that holds `x`.
    #[verifier::loop_isolation(false)]
    fn passes_to(&self, og: usize, x: usize, behind: &Vec<Option<usize>>, Ghost(loops): Ghost<Seq<usize>>) -> (r: Option<usize>)
        requires
            self.wf(),
            og < self.groups@.len(),
            x < self.env().n(),
            behind@.len() == self.groups@.len(),
            forall|j: int| 0 <= j < behind@.len() ==> #[trigger] behind@[j] == self.env().behind_group(j as usize, loops, 0),
            forall|j: int| 0 <= j < behind@.len() ==> (#[trigger] behind@[j] matches Some(b) ==> b < self.env().n()),
        ensures
            r == self.env().goes_on_at(og, x, loops, 0),
            r matches Some(b) ==> b < self.env().n(),
    {
        let ghost e = self.env();
        let o = &self.groups[og];
        assert(e.groups[og as int] == o@);
        let blk = &self.cfg.blocks[x];
        let mut j: usize = 0;
        while j < self.groups.len()
            invariant
                j <= self.groups@.len(),
                e.goes_on_at(og, x, loops, j as nat) == e.goes_on_at(og, x, loops, 0),
            decreases self.groups@.len() - j,
        {
            let g = &self.groups[j];
            assert(e.groups[j as int] == g@);
            let fits = g.start >= o.start && (g.end <= o.end || g.end as u64 <= o.start as u64 + 1);
            assert(behind@[j as int] == e.behind_group(j, loops, 0));
            if j != og && fits && behind[j].is_some() && blk.ins_len != 0 && blk.start >= o.start && (blk.end <= g.end
                || blk.end as u64 <= g.start as u64 + 1) && !self.is_handler_block(x) {
                return behind[j];
            }
            j += 1;
        }
        None
    }

    /// The blocks reached from the start of the group inside its span.
    #[verifier::loop_isolation(false)]
    fn reach_in_body(&self, og: usize, behind: &Vec<Option<usize>>, Ghost(loops): Ghost<Seq<usize>>) -> (r: HashSet<usize>)
        requires
            self.wf(),
            og < self.groups@.len(),
            behind@.len() == self.groups@.len(),
            forall|j: int| 0 <= j < behind@.len() ==> #[trigger] behind@[j] == self.env().behind_group(j as usize, loops, 0),
            forall|j: int| 0 <= j < behind@.len() ==> (#[trigger] behind@[j] matches Some(b) ==> b < self.env().n()),
        ensures
            forall|x: usize| #[trigger] r@.contains(x) <==> self.env().body_reaches(og, x, loops),
    {
        let ghost e = self.env();
        let g = &self.groups[og];
        assert(e.groups[og as int] == g@);
        let entry = match self.cfg.block_at(g.start) {
            Some(b) => b,
            None => {
                return HashSet::new();
            },
        };
        let mut adj: Vec<Vec<usize>> = Vec::new();
        let mut bar: HashSet<usize> = HashSet::new();
        let ghost want = e.span_flow(og, loops);
        let mut b: usize = 0;
        while b < self.cfg.blocks.len()
            invariant
                b <= e.n(),
                adj@.len() == b,
                forall|i: int| 0 <= i < b ==> (#[trigger] adj@[i])@ == want.adj[i],
                forall|i: int, k: int| 0 <= i < b && 0 <= k < adj@[i]@.len() ==> #[trigger] adj@[i]@[k] < e.n(),
                forall|x: usize| #[trigger] bar@.contains(x) <==> x < b && want.bar.contains(x),
            decreases e.n() - b,
        {
            let mut list = crate::sets::copy_list(self.succ_of(b));
            if let Some(c) = self.passes_to(og, b, behind, Ghost(loops)) {
                list.push(c);
            }
            let ghost lv = list@;
            assert(lv == want.adj[b as int]);
            adj.push(list);
            if !(self.spans(og, b) && !self.is_handler_block(b)) {
                bar.insert(b);
            }
            b += 1;
        }
        proof {
            assert(crate::structure::dominators::lists(adj@) =~= want.adj);
            assert(bar@ =~= want.bar);
            let g2 = Graph { adj: crate::structure::dominators::lists(adj@), bar: bar@ };
            assert forall|a: int, k: int| 0 <= a < g2.adj.len() && 0 <= k < g2.adj[a].len() implies #[trigger] g2.adj[a][k]
                < g2.adj.len() by {
                assert(adj@[a]@[k] < e.n());
            }
        }
        flood_lists(&adj, entry, &bar)
    }

    /// The blocks that only the handler at `hb` comes to.
    #[verifier::loop_isolation(false)]
    fn handler_private(&self, gi: usize, hb: usize, loops: &Vec<usize>) -> (r: HashSet<usize>)
        requires
            self.wf(),
            gi < self.groups@.len(),
            hb < self.env().n(),
        ensures
            r@ == self.env().private_flow(gi, hb, loops@),
    {
        let ghost e = self.env();
        let mut behind: Vec<Option<usize>> = Vec::new();
        let mut j: usize = 0;
        while j < self.groups.len()
            invariant
                j <= self.groups@.len(),
                behind@.len() == j,
                forall|i: int| 0 <= i < j ==> #[trigger] behind@[i] == e.behind_group(i as usize, loops@, 0),
                forall|i: int| 0 <= i < j ==> (#[trigger] behind@[i] matches Some(b) ==> b < e.n()),
            decreases self.groups@.len() - j,
        {
            behind.push(self.block_behind(j, loops));
            j += 1;
        }
        let mut bodies: Vec<HashSet<usize>> = Vec::new();
        j = 0;
        while j < self.groups.len()
            invariant
                j <= self.groups@.len(),
                bodies@.len() == j,
                forall|i: int, x: usize|
                    0 <= i < j ==> (#[trigger] bodies@[i]@.contains(x) <==> e.body_reaches(i as usize, x, loops@)),
            decreases self.groups@.len() - j,
        {
            let ghost b0 = bodies@;
            let s = self.reach_in_body(j, &behind, Ghost(loops@));
            let ghost sv = s@;
            bodies.push(s);
            assert forall|i: int, x: usize| 0 <= i < j + 1 implies (#[trigger] bodies@[i]@.contains(x) <==> e.body_reaches(
                i as usize,
                x,
                loops@,
            )) by {
                if i < j {
                    assert(bodies@[i] == b0[i]);
                    assert(b0[i]@.contains(x) <==> e.body_reaches(i as usize, x, loops@));
                } else {
                    assert(bodies@[i]@ == sv);
                }
            }
            j += 1;
        }
        let mut open: HashSet<usize> = HashSet::new();
        let mut side: HashSet<usize> = HashSet::new();
        let ghost side_want = e.handler_sides(gi, hb);
        let mut x: usize = 0;
        while x < self.cfg.blocks.len()
            invariant
                x <= e.n(),
                forall|y: usize| #[trigger] open@.contains(y) <==> y < x && e.may_be_private(gi, hb, loops@).contains(y),
                forall|y: usize| #[trigger] side@.contains(y) <==> y < x && side_want.contains(y),
            decreases e.n() - x,
        {
            if x == hb || self.does_handle(x, gi) {
                side.insert(x);
            }
            let foreign_body = match self.body_of(x) {
                Some(og) => {
                    assert(e.body.dom().contains(x));
                    assert(bodies@[og as int]@.contains(x) <==> e.body_reaches(og, x, loops@));
                    og != gi && bodies[og].contains(&x)
                },
                None => false,
            };
            let foreign_handler = match self.handler_group.get(&x) {
                Some(og) => *og != gi,
                None => false,
            };
            if x != hb && !foreign_body && !foreign_handler {
                open.insert(x);
            }
            x += 1;
        }
        assert(open@ =~= e.may_be_private(gi, hb, loops@));
        assert(side@ =~= side_want);
        let mut seeds: HashSet<usize> = HashSet::new();
        seeds.insert(hb);
        assert(seeds@ =~= Set::empty().insert(hb));
        owned_flow(self.cfg, &seeds, &open, &side)
    }

    #[verifier::loop_isolation(false)]
    fn do_only_handlers_enter(&self, b: usize) -> (r: bool)
        requires
            self.wf(),
            b < self.env().n(),
        ensures
            r == self.env().only_handlers_enter(b),
    {
        let ghost e = self.env();
        let preds = self.pred_of(b);
        let mut k: usize = 0;
        while k < preds.len()
            invariant
                k <= preds@.len(),
                forall|j: int| 0 <= j < k ==> e.is_handler(#[trigger] e.pred(b)[j]),
            decreases preds@.len() - k,
        {
            if !self.is_handler_block(preds[k]) {
                assert(!e.is_handler(e.pred(b)[k as int]));
                return false;
            }
            k += 1;
        }
        true
    }

    /// `reach` without what lies behind `cont`, but for `kept`.
    #[verifier::loop_isolation(false)]
    fn cut_behind(&self, reach: &HashSet<usize>, cont: usize, kept: &HashSet<usize>) -> (r: HashSet<usize>)
        requires
            self.wf(),
            cont < self.env().n(),
            forall|x: usize| #[trigger] reach@.contains(x) ==> x < self.env().n(),
        ensures
            forall|b: usize|
                #[trigger] r@.contains(b) <==> reach@.contains(b) && (!self.env().all_behind(cont).contains(b)
                    || kept@.contains(b)),
    {
        let ghost e = self.env();
        let none: HashSet<usize> = HashSet::new();
        assert(none@ =~= Set::empty());
        let behind = flood(self.cfg, cont, &none);
        assert(behind@ == e.all_behind(cont));
        let mut r: HashSet<usize> = HashSet::new();
        let mut b: usize = 0;
        while b < self.cfg.blocks.len()
            invariant
                b <= e.n(),
                forall|x: usize|
                    #[trigger] r@.contains(x) <==> x < b && reach@.contains(x) && (!behind@.contains(x) || kept@.contains(x)),
            decreases e.n() - b,
        {
            if reach.contains(&b) && (!behind.contains(&b) || kept.contains(&b)) {
                r.insert(b);
            }
            b += 1;
        }
        r
    }

    /// The blocks that the handler at `hb` may walk.
    pub(crate) fn handler_universe(
        &self,
        gi: usize,
        hb: usize,
        universe: &HashSet<usize>,
        claimed: &HashSet<usize>,
        goes_on: bool,
        loops: &Vec<usize>,
    ) -> (r: HashSet<usize>)
        requires
            self.wf(),
            gi < self.groups@.len(),
            hb < self.env().n(),
        ensures
            r@ == self.env().handler_scope(gi, hb, universe@, claimed@, goes_on, loops@),
            forall|x: usize| #[trigger] r@.contains(x) ==> x < self.env().n(),
    {
        let ghost e = self.env();
        assert(e.groups[gi as int] == self.groups@[gi as int]@);
        let reach = self.reach_of_handler(gi, hb, universe);
        let own = self.handler_flow_only(gi, loops);
        let hu = self.cut_at_merges(gi, hb, reach, claimed, &own, loops);
        let mut r = match self.cfg.block_at(self.groups[gi].end) {
            Some(cont) => if cont == hb {
                if self.do_only_handlers_enter(hb) {
                    let private = self.handler_private(gi, hb, loops);
                    let kept = self.cut_behind(&hu, cont, &private);
                    assert(kept@ =~= hu@.filter(
                        |b: usize| !e.all_behind(cont).contains(b) || e.private_flow(gi, hb, loops@).contains(b),
                    ));
                    kept
                } else {
                    hu
                }
            } else if goes_on && !self.is_handler_block(cont) && !own.contains(&cont) {
                let kept = self.cut_behind(&hu, cont, &own);
                assert(kept@ =~= hu@.filter(
                    |b: usize| !e.all_behind(cont).contains(b) || e.handler_flow(gi, loops@).contains(b),
                ));
                kept
            } else {
                hu
            },
            None => hu,
        };
        r.insert(hb);
        r
    }

    #[verifier::loop_isolation(false)]
    fn does_lie_in(&self, j: usize, hu: &HashSet<usize>) -> (r: bool)
        requires
            self.wf(),
            j < self.groups@.len(),
            forall|x: usize| #[trigger] hu@.contains(x) ==> x < self.env().n(),
        ensures
            r == self.env().lies_in(j, hu@),
    {
        let ghost e = self.env();
        let g = &self.groups[j];
        assert(e.groups[j as int] == g@);
        let mut before = false;
        let mut after = false;
        let mut b: usize = 0;
        while b < self.cfg.blocks.len()
            invariant
                b <= e.n(),
                before == exists|x: usize| x < b && #[trigger] hu@.contains(x) && e.start(x) <= g.start,
                after == exists|x: usize| x < b && #[trigger] hu@.contains(x) && e.end(x) >= g.end,
            decreases e.n() - b,
        {
            if hu.contains(&b) {
                if self.cfg.blocks[b].start <= g.start {
                    before = true;
                    assert(hu@.contains(b) && e.start(b) <= g.start);
                }
                if self.cfg.blocks[b].end >= g.end {
                    after = true;
                    assert(hu@.contains(b) && e.end(b) >= g.end);
                }
            }
            b += 1;
        }
        before && after
    }

    #[verifier::loop_isolation(false)]
    fn does_catch_elsewhere(&self, j: usize) -> (r: bool)
        requires
            j < self.groups@.len(),
        ensures
            r == self.env().catches_elsewhere(j),
    {
        let ghost e = self.env();
        let g = &self.groups[j];
        assert(e.groups[j as int] == g@);
        let mut i: usize = 0;
        while i < g.handlers.len()
            invariant
                i <= g.handlers@.len(),
                forall|k: int| 0 <= k < i ==> (#[trigger] e.groups[j as int].handlers[k]).0 == g.start,
            decreases g.handlers@.len() - i,
        {
            assert(e.groups[j as int].handlers[i as int].0 == g.handlers@[i as int].0);
            if g.handlers[i].0 != g.start {
                return true;
            }
            i += 1;
        }
        false
    }

    /// The groups that a handler of `gi` walking `hu` may open.
    pub(crate) fn groups_for_handler(&self, gi: usize, hu: &HashSet<usize>) -> (r: Vec<usize>)
        requires
            self.wf(),
            forall|x: usize| #[trigger] hu@.contains(x) ==> x < self.env().n(),
        ensures
            r@ == self.env().handler_active(gi, hu@, self.env().groups.len()),
            self.groups_ok(r@),
    {
        let mut r: Vec<usize> = Vec::new();
        let mut j: usize = 0;
        while j < self.groups.len()
            invariant
                self.wf(),
                forall|x: usize| #[trigger] hu@.contains(x) ==> x < self.env().n(),
                j <= self.groups@.len(),
                r@ == self.env().handler_active(gi, hu@, j as nat),
                self.groups_ok(r@),
            decreases self.groups@.len() - j,
        {
            if j != gi && self.does_lie_in(j, hu) && self.does_catch_elsewhere(j) {
                r.push(j);
            }
            j += 1;
        }
        r
    }

    #[verifier::loop_isolation(false)]
    fn is_enclosed(&self, gi: usize) -> (r: bool)
        requires
            gi < self.groups@.len(),
        ensures
            r == self.env().enclosed(gi),
    {
        let ghost e = self.env();
        assert(e.groups[gi as int] == self.groups@[gi as int]@);
        let mut j: usize = 0;
        while j < self.groups.len()
            invariant
                j <= self.groups@.len(),
                forall|k: usize|
                    k < j && k != gi && #[trigger] e.inside(gi, k) ==> e.groups[k as int].start == e.groups[gi as int].start
                        && e.groups[k as int].end == e.groups[gi as int].end,
            decreases self.groups@.len() - j,
        {
            assert(e.groups[j as int] == self.groups@[j as int]@);
            if j != gi && self.is_inside(gi, j) && (self.groups[j].start != self.groups[gi].start || self.groups[j].end
                != self.groups[gi].end) {
                assert(e.inside(gi, j));
                return true;
            }
            j += 1;
        }
        false
    }

    /// The groups that no wider group encloses.
    pub(crate) fn outermost_groups(&self) -> (r: Vec<usize>)
        ensures
            r@ == self.env().top_groups(self.env().groups.len()),
            self.groups_ok(r@),
    {
        let mut r: Vec<usize> = Vec::new();
        let mut j: usize = 0;
        while j < self.groups.len()
            invariant
                j <= self.groups@.len(),
                r@ == self.env().top_groups(j as nat),
                self.groups_ok(r@),
            decreases self.groups@.len() - j,
        {
            if !self.is_enclosed(j) {
                r.push(j);
            }
            j += 1;
        }
        r
    }
}

/// What a list of merged handlers is.
pub open spec fn handler_views(v: Seq<(Vec<String>, usize)>) -> Seq<(Seq<Seq<char>>, usize)> {
    Seq::new(v.len(), |i: int| (region::names(v[i].0@), v[i].1))
}

} // verus!
