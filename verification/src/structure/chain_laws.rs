//! What searches along plain chains, through block lists and over flow find.

use vstd::prelude::*;

use crate::cfg::Cfg;
use crate::structure::env::Env;
use crate::structure::follow::with_last;
use crate::structure::graph::Graph;
use crate::structure::merge_laws;
use crate::structure::merge_point::{meets, nearest, nearest_of, repeated, score};
use crate::structure::model::{suffix_at, Frame};
use crate::structure::region::{joined, Tree};

verus! {

impl Env {
    /// Each block of the list is plain and goes on with the next one only.
    pub open spec fn hops(self, p: Seq<usize>) -> bool {
        p.len() > 0 && forall|i: int| 0 <= i < p.len() - 1 ==> self.hop(#[trigger] p[i]) == Some(p[i + 1])
    }

    /// The chain leads from `x` to `to`, and no block before `to` does anything.
    pub open spec fn quiet_chain(self, p: Seq<usize>, x: usize, to: usize) -> bool {
        self.hops(p) && p[0] == x && p.last() == to && forall|i: int| 0 <= i < p.len() - 1 ==> self.quiet(#[trigger] p[i])
    }

    proof fn lemma_hops_onto(self, x: usize, p: Seq<usize>)
        requires
            self.hops(p),
            self.hop(x) == Some(p[0]),
        ensures
            self.hops(seq![x] + p),
            (seq![x] + p).last() == p.last(),
            forall|i: int| 0 < i < p.len() + 1 ==> #[trigger] (seq![x] + p)[i] == p[i - 1],
    {
        let q = seq![x] + p;
        assert forall|i: int| 0 <= i < q.len() - 1 implies self.hop(#[trigger] q[i]) == Some(q[i + 1]) by {
            if i > 0 {
                assert(self.hop(p[i - 1]) == Some(p[i - 1 + 1]));
            }
        }
    }

    /// A stub is taken to lead to a block only where a chain of blocks that do
    /// nothing leads there.
    pub proof fn law_stub_walk(self, x: usize, to: usize, seen: Set<usize>, fuel: nat)
        requires
            self.stub_walk(x, to, seen, fuel).0,
        ensures
            exists|p: Seq<usize>| #[trigger] self.quiet_chain(p, x, to) && p.len() <= fuel,
        decreases fuel,
    {
        if x == to {
            assert(self.quiet_chain(seq![x], x, to));
        } else {
            let y = self.hop(x)->0;
            self.law_stub_walk(y, to, seen.insert(x), (fuel - 1) as nat);
            let p = choose|p: Seq<usize>| #[trigger] self.quiet_chain(p, y, to) && p.len() <= fuel - 1;
            self.lemma_hops_onto(x, p);
            let q = seq![x] + p;
            assert forall|i: int| 0 <= i < q.len() - 1 implies self.quiet(#[trigger] q[i]) by {
                if i > 0 {
                    assert(self.quiet(p[i - 1]));
                }
            }
            assert(self.quiet_chain(q, x, to));
        }
    }

    /// A chain of at most `fuel` different blocks that do nothing is followed to
    /// its end.
    pub proof fn law_stub_followed(self, p: Seq<usize>, seen: Set<usize>, fuel: nat)
        requires
            p.len() > 0,
            self.quiet_chain(p, p[0], p.last()),
            p.no_duplicates(),
            p.len() <= fuel,
            forall|i: int| 0 <= i < p.len() ==> !seen.contains(#[trigger] p[i]),
        ensures
            self.stub_walk(p[0], p.last(), seen, fuel).0,
        decreases p.len(),
    {
        if p.len() > 1 {
            let q = p.skip(1);
            assert(self.quiet(p[0]));
            assert(self.hop(p[0]) == Some(p[1]));
            assert(p[0] != p[p.len() - 1]);
            assert forall|i: int| 0 <= i < q.len() - 1 implies self.hop(#[trigger] q[i]) == Some(q[i + 1]) && self.quiet(q[i]) by {
                assert(self.hop(p[i + 1]) == Some(p[i + 1 + 1]));
                assert(self.quiet(p[i + 1]));
            }
            assert(q.last() == p.last());
            assert(self.quiet_chain(q, q[0], q.last()));
            assert forall|i: int| 0 <= i < q.len() implies !seen.insert(p[0]).contains(#[trigger] q[i]) by {
                assert(!seen.contains(p[i + 1]));
                assert(p[0] != p[i + 1]);
            }
            self.law_stub_followed(q, seen.insert(p[0]), (fuel - 1) as nat);
        }
    }

    /// A chain is taken to write a final field only where one of its blocks
    /// assigns a field of that name.
    pub proof fn law_writes_final(self, x: usize, seen: Set<usize>, fuel: nat)
        requires
            self.writes_final_from(x, seen, fuel),
        ensures
            exists|p: Seq<usize>| #[trigger] self.hops(p) && p[0] == x && p.len() <= fuel && self.block_writes_final(p.last()),
        decreases fuel,
    {
        if self.block_writes_final(x) {
            assert(self.hops(seq![x]));
        } else {
            let y = self.hop(x)->0;
            self.law_writes_final(y, seen.insert(x), (fuel - 1) as nat);
            let p = choose|p: Seq<usize>| #[trigger]
                self.hops(p) && p[0] == y && p.len() <= fuel - 1 && self.block_writes_final(p.last());
            self.lemma_hops_onto(x, p);
            assert(self.hops(seq![x] + p));
        }
    }

    /// A block is taken to have content behind it only where a chain leads
    /// from it to a block that does or decides something.
    pub proof fn law_has_content(self, e: usize, b: usize, stop: Set<usize>, loops: Seq<usize>, fuel: nat)
        requires
            self.has_content(e, b, stop, loops, fuel),
        ensures
            exists|p: Seq<usize>| #[trigger]
                self.hops(p) && p[0] == b && p.len() <= fuel && (!self.quiet(p.last()) || self.term(p.last()) is Cond
                    || self.term(p.last()) is Switch),
        decreases fuel,
    {
        if !self.quiet(b) || self.term(b) is Cond || self.term(b) is Switch {
            assert(self.hops(seq![b]));
        } else {
            let y = self.hop(b)->0;
            self.law_has_content(e, y, stop, loops, (fuel - 1) as nat);
            let p = choose|p: Seq<usize>| #[trigger]
                self.hops(p) && p[0] == y && p.len() <= fuel - 1 && (!self.quiet(p.last()) || self.term(p.last()) is Cond
                    || self.term(p.last()) is Switch);
            self.lemma_hops_onto(b, p);
            assert(self.hops(seq![b] + p));
        }
    }

    /// A stop chain ends in a claimed return or throw that does nothing before.
    pub proof fn law_stop_chain(self, x: usize, claimed: Set<usize>, loops: Seq<usize>, fuel: nat)
        requires
            self.stop_chain(x, claimed, loops, fuel),
        ensures
            exists|p: Seq<usize>| #[trigger]
                self.hops(p) && p[0] == x && p.len() <= fuel && self.term(p.last()).abrupt() && claimed.contains(p.last())
                    && self.quiet(p.last()),
        decreases fuel,
    {
        if self.term(x).abrupt() {
            assert(self.hops(seq![x]));
        } else {
            let y = self.hop(x)->0;
            self.law_stop_chain(y, claimed, loops, (fuel - 1) as nat);
            let p = choose|p: Seq<usize>| #[trigger]
                self.hops(p) && p[0] == y && p.len() <= fuel - 1 && self.term(p.last()).abrupt() && claimed.contains(p.last())
                    && self.quiet(p.last());
            self.lemma_hops_onto(x, p);
            assert(self.hops(seq![x] + p));
        }
    }

    // -- block lists ----------------------------------------------------------

    /// The block may come next: it starts at or behind `pc`, is in the scope,
    /// unclaimed and no handler.
    pub open spec fn may_come(self, pc: u32, universe: Set<usize>, claimed: Set<usize>, x: usize) -> bool {
        x < self.n() && self.start(x) >= pc && universe.contains(x) && !claimed.contains(x) && !self.is_handler(x)
    }

    /// An excluded block at or behind `pc` comes from `k` on and not behind `x`.
    pub open spec fn barred_before(self, pc: u32, exclude: Set<usize>, k: nat, x: usize) -> bool {
        exists|y: usize| k <= y <= x && y < self.n() && #[trigger] exclude.contains(y) && self.start(y) >= pc
    }

    /// The next block is the first that may come and that no excluded block
    /// comes before.
    pub proof fn law_next_after(self, pc: u32, universe: Set<usize>, claimed: Set<usize>, exclude: Set<usize>, k: nat, x: usize)
        requires
            self.n() <= usize::MAX,
        ensures
            self.next_after(pc, universe, claimed, exclude, k) matches Some(b) ==> k <= b && self.may_come(
                pc,
                universe,
                claimed,
                b,
            ) && !self.barred_before(pc, exclude, k, b),
            k <= x && self.may_come(pc, universe, claimed, x) && !self.barred_before(pc, exclude, k, x) ==> {
                let r = self.next_after(pc, universe, claimed, exclude, k);
                r is Some && r->0 <= x
            },
        decreases self.n() - k,
    {
        if k < self.n() {
            let b = k as usize;
            self.law_next_after(pc, universe, claimed, exclude, k + 1, x);
            let r = self.next_after(pc, universe, claimed, exclude, k + 1);
            if self.start(b) >= pc && exclude.contains(b) {
                if k <= x {
                    assert(self.barred_before(pc, exclude, k, x));
                }
            } else {
                if r is Some && self.barred_before(pc, exclude, k, r->0) {
                    let y = choose|y: usize|
                        k <= y <= r->0 && y < self.n() && #[trigger] exclude.contains(y) && self.start(y) >= pc;
                    assert(y != b);
                    assert(self.barred_before(pc, exclude, k + 1, r->0));
                }
                if self.barred_before(pc, exclude, k + 1, x) {
                    let y = choose|y: usize|
                        k + 1 <= y <= x && y < self.n() && #[trigger] exclude.contains(y) && self.start(y) >= pc;
                    assert(exclude.contains(y) && k <= y);
                    assert(self.barred_before(pc, exclude, k, x));
                }
                if self.may_come(pc, universe, claimed, b) && self.barred_before(pc, exclude, k, b) {
                    let y = choose|y: usize|
                        k <= y <= b && y < self.n() && #[trigger] exclude.contains(y) && self.start(y) >= pc;
                    assert(y == b);
                }
            }
        }
    }

    /// The block goes on behind the group: it starts behind the span, holds
    /// code, heads no handler and belongs to none.
    pub open spec fn lies_behind(self, j: usize, loops: Seq<usize>, x: usize) -> bool {
        &&& x < self.n()
        &&& self.start(x) >= self.groups[j as int].end
        &&& self.cfg.len(x) != 0
        &&& !self.is_handler(x)
        &&& !self.handler_flow(j, loops).contains(x)
    }

    /// The block behind a group is the first that goes on behind it; there is
    /// none only where no block does.
    pub proof fn law_behind_group(self, j: usize, loops: Seq<usize>, k: nat, x: usize)
        requires
            self.n() <= usize::MAX,
            k <= x,
        ensures
            self.behind_group(j, loops, k) matches Some(b) ==> self.lies_behind(j, loops, b),
            self.lies_behind(j, loops, x) ==> self.behind_group(j, loops, k) is Some && self.behind_group(j, loops, k)->0 <= x,
        decreases self.n() - k,
    {
        if k < self.n() && x < self.n() {
            if k < x {
                self.law_behind_group(j, loops, k + 1, x);
            } else {
                self.lemma_behind(j, loops, k);
            }
        } else {
            self.lemma_behind(j, loops, k);
        }
    }

    proof fn lemma_behind(self, j: usize, loops: Seq<usize>, k: nat)
        requires
            self.n() <= usize::MAX,
        ensures
            self.behind_group(j, loops, k) matches Some(b) ==> self.lies_behind(j, loops, b),
        decreases self.n() - k,
    {
        if k < self.n() {
            self.lemma_behind(j, loops, k + 1);
        }
    }

    /// The walk may go on at the block: it starts at or behind `pc`, can be
    /// entered, heads no handler, and is not the group's own.
    pub open spec fn may_go_on(self, pc: u32, f: Frame, claimed: Set<usize>, own: Set<usize>, x: usize) -> bool {
        &&& x < self.n()
        &&& self.start(x) >= pc
        &&& f.universe.contains(x) && !f.stop.contains(x)
        &&& !claimed.contains(x) && !own.contains(x)
        &&& !self.is_handler(x)
    }

    proof fn lemma_next_block(self, pc: u32, f: Frame, claimed: Set<usize>, own: Set<usize>, k: nat)
        requires
            self.n() <= usize::MAX,
        ensures
            self.next_block(pc, f, claimed, own, k) matches Some(b) ==> k <= b && self.may_go_on(pc, f, claimed, own, b),
        decreases self.n() - k,
    {
        if k < self.n() {
            self.lemma_next_block(pc, f, claimed, own, k + 1);
        }
    }

    /// Behind a try the walk goes on at the first block where it may; it ends
    /// only where there is none.
    pub proof fn law_next_block(self, pc: u32, f: Frame, claimed: Set<usize>, own: Set<usize>, k: nat, x: usize)
        requires
            self.n() <= usize::MAX,
            k <= x,
        ensures
            self.next_block(pc, f, claimed, own, k) matches Some(b) ==> k <= b && self.may_go_on(pc, f, claimed, own, b),
            self.may_go_on(pc, f, claimed, own, x) ==> {
                let r = self.next_block(pc, f, claimed, own, k);
                r is Some && r->0 <= x
            },
        decreases x - k,
    {
        self.lemma_next_block(pc, f, claimed, own, k);
        if k < x && k < self.n() {
            self.law_next_block(pc, f, claimed, own, k + 1, x);
        }
    }

    /// The ending exit is an exit that ends the method and is no boundary; there
    /// is one if any exit is so.
    pub proof fn law_ending_exit(self, exits: Seq<usize>, stop: Set<usize>, k: nat, i: int)
        ensures
            self.ending_exit(exits, stop, k) matches Some(x) ==> exits.contains(x) && !stop.contains(x) && self.is_terminator(x),
            k <= i < exits.len() && !stop.contains(exits[i]) && self.is_terminator(exits[i]) ==> self.ending_exit(
                exits,
                stop,
                k,
            ) is Some,
        decreases exits.len() - k,
    {
        if k < exits.len() {
            self.law_ending_exit(exits, stop, k + 1, i);
        }
    }

    /// The boundary exit is an exit to a boundary inside the scope that heads
    /// no loop around; there is one if any exit is so.
    pub proof fn law_boundary_exit(self, exits: Seq<usize>, f: Frame, loops: Seq<usize>, k: nat, i: int)
        ensures
            self.boundary_exit(exits, f, loops, k) matches Some(x) ==> exits.contains(x) && f.stop.contains(x) && f.universe.contains(x)
                && !loops.contains(x),
            k <= i < exits.len() && f.stop.contains(exits[i]) && f.universe.contains(exits[i]) && !loops.contains(exits[i])
                ==> self.boundary_exit(exits, f, loops, k) is Some,
        decreases exits.len() - k,
    {
        if k < exits.len() {
            self.law_boundary_exit(exits, f, loops, k + 1, i);
        }
    }

    /// The top groups are those that no wider group spans, in group order.
    pub proof fn law_top_groups(self, k: nat, gi: usize)
        requires
            k <= self.groups.len(),
            k <= usize::MAX,
        ensures
            self.top_groups(k).contains(gi) <==> gi < k && forall|j: usize|
                j < self.groups.len() && (#[trigger] self.groups[j as int]).start <= self.groups[gi as int].start
                    && self.groups[gi as int].end <= self.groups[j as int].end ==> self.groups[j as int].start
                    == self.groups[gi as int].start && self.groups[j as int].end == self.groups[gi as int].end,
            forall|a: int, b: int| 0 <= a < b < self.top_groups(k).len() ==> self.top_groups(k)[a] < self.top_groups(k)[b],
            forall|a: int| 0 <= a < self.top_groups(k).len() ==> #[trigger] self.top_groups(k)[a] < k,
        decreases k,
    {
        if k > 0 {
            let x = (k - 1) as usize;
            self.law_top_groups((k - 1) as nat, gi);
            let v = self.top_groups((k - 1) as nat);
            assert(v.push(x)[v.len() as int] == x);
            if v.contains(gi) {
                let a = choose|a: int| 0 <= a < v.len() && v[a] == gi;
                assert(v.push(x)[a] == gi);
            }
            if v.push(x).contains(gi) && gi != x {
                let a = choose|a: int| 0 <= a < v.push(x).len() && v.push(x)[a] == gi;
                assert(v[a] == gi);
            }
            if gi == x {
                let mine = self.groups[gi as int];
                if !self.enclosed(gi) {
                    assert forall|j: usize|
                        j < self.groups.len() && (#[trigger] self.groups[j as int]).start <= mine.start && mine.end
                            <= self.groups[j as int].end implies self.groups[j as int].start == mine.start
                        && self.groups[j as int].end == mine.end by {
                        assert(self.inside(gi, j) || j == gi);
                    }
                } else {
                    let j = choose|j: usize|
                        j < self.groups.len() && j != gi && #[trigger] self.inside(gi, j) && (self.groups[j as int].start
                            != mine.start || self.groups[j as int].end != mine.end);
                    assert(self.groups[j as int].start <= mine.start);
                    assert(!v.contains(gi));
                }
            }
        }
    }

    // -- ways to the end ----------------------------------------------------------

    /// The block returns, and flow comes to it from `b`.
    pub open spec fn returns_behind(self, b: usize, x: usize) -> bool {
        self.cfg.flow(Set::empty()).reaches(b, x) && self.term(x) is Return
    }

    /// A search comes to a return only where flow does.
    pub proof fn law_any_return(self, b: usize, fuel: nat)
        requires
            self.cfg.wf(),
            b < self.n(),
            self.any_return(seq![b], Set::empty(), fuel),
        ensures
            exists|x: usize| #[trigger] self.returns_behind(b, x),
    {
        self.cfg.flow(Set::empty()).lemma_reaches_self(b);
        self.lemma_any_return(b, seq![b], Set::empty(), fuel);
    }

    proof fn lemma_any_return(self, b: usize, q: Seq<usize>, seen: Set<usize>, fuel: nat)
        requires
            self.cfg.wf(),
            forall|i: int| 0 <= i < q.len() ==> #[trigger] q[i] < self.n() && self.cfg.flow(Set::empty()).reaches(b, q[i]),
            self.any_return(q, seen, fuel),
        ensures
            exists|x: usize| #[trigger] self.returns_behind(b, x),
        decreases fuel,
    {
        let g = self.cfg.flow(Set::empty());
        let x = q[0];
        let rest = q.skip(1);
        assert forall|i: int| 0 <= i < rest.len() implies #[trigger] rest[i] < self.n() && g.reaches(b, rest[i]) by {
            assert(rest[i] == q[i + 1]);
        }
        assert(q[0] < self.n());
        if seen.contains(x) {
            self.lemma_any_return(b, rest, seen, (fuel - 1) as nat);
        } else if self.term(x) is Return {
            assert(self.returns_behind(b, x));
        } else {
            let more = rest + self.succ(x);
            self.cfg.lemma_flow_closed(Set::empty());
            assert forall|i: int| 0 <= i < more.len() implies #[trigger] more[i] < self.n() && g.reaches(b, more[i]) by {
                if i < rest.len() {
                    assert(more[i] == rest[i]);
                } else {
                    let y = self.succ(x)[i - rest.len()];
                    assert(more[i] == y);
                    assert(g.adj[x as int] == self.succ(x));
                    assert(g.adj[x as int].contains(y));
                    assert(g.edge(x, y));
                    assert(g.adj[x as int][i - rest.len()] < g.adj.len());
                    g.lemma_reaches_step(b, x, y);
                }
            }
            self.lemma_any_return(b, more, seen.insert(x), (fuel - 1) as nat);
        }
    }

    /// Flow that is in the set stays there until a return or throw.
    pub open spec fn runs_out(self, s: Set<usize>) -> bool {
        forall|x: usize| #[trigger]
            s.contains(x) ==> self.term(x).abrupt() || (self.succ(x).len() > 0 && forall|k: int|
                0 <= k < self.succ(x).len() ==> s.contains(#[trigger] self.succ(x)[k]))
    }

    /// Every way from `b` is found to end only where at most 64 blocks hold all
    /// of them and each way stays among these until a return or throw.
    pub proof fn law_all_end(self, b: usize)
        requires
            self.all_end(seq![b], Set::empty(), 0),
        ensures
            exists|s: Set<usize>| s.contains(b) && s.finite() && s.len() <= 64 && #[trigger] self.runs_out(s),
    {
        assert(seq![b][0] == b);
        let s = self.lemma_all_end(b, seq![b], Set::empty(), 0);
        assert(self.runs_out(s));
    }

    proof fn lemma_all_end(self, b: usize, q: Seq<usize>, seen: Set<usize>, count: nat) -> (s: Set<usize>)
        requires
            self.all_end(q, seen, count),
            seen.finite(),
            seen.len() == count <= 64,
            seen.contains(b) || q.contains(b),
            forall|x: usize| #[trigger]
                seen.contains(x) ==> self.term(x).abrupt() || (self.succ(x).len() > 0 && forall|k: int|
                    0 <= k < self.succ(x).len() ==> seen.contains(#[trigger] self.succ(x)[k]) || q.contains(self.succ(x)[k])),
        ensures
            s.contains(b),
            s.finite(),
            s.len() <= 64,
            self.runs_out(s),
        decreases 65 - count, q.len(),
    {
        if q.len() == 0 {
            seen
        } else {
            let x = q[0];
            let rest = q.skip(1);
            assert forall|y: usize| q.contains(y) && y != x implies rest.contains(y) by {
                let i = choose|i: int| 0 <= i < q.len() && q[i] == y;
                assert(rest[i - 1] == y);
            }
            if seen.contains(x) {
                self.lemma_all_end(b, rest, seen, count)
            } else if self.term(x).abrupt() {
                self.lemma_all_end(b, rest, seen.insert(x), count + 1)
            } else {
                let more = rest + self.succ(x);
                assert forall|y: usize| rest.contains(y) || self.succ(x).contains(y) implies more.contains(y) by {
                    if rest.contains(y) {
                        let i = choose|i: int| 0 <= i < rest.len() && rest[i] == y;
                        assert(more[i] == y);
                    } else {
                        let i = choose|i: int| 0 <= i < self.succ(x).len() && self.succ(x)[i] == y;
                        assert(more[rest.len() + i] == y);
                    }
                }
                assert forall|k: int| 0 <= k < self.succ(x).len() implies more.contains(#[trigger] self.succ(x)[k]) by {
                    assert(self.succ(x).contains(self.succ(x)[k]));
                }
                self.lemma_all_end(b, more, seen.insert(x), count + 1)
            }
        }
    }

    /// Where several cases of a switch go on, its follow is a block that all
    /// of these reach inside the scope without coming back to the switch.
    pub proof fn law_switch_follow(self, cur: usize, universe: Set<usize>, f: usize, k: int, j: int)
        requires
            self.n() <= usize::MAX,
            self.switch_follow(cur, universe) == Some(f),
            self.live_cases(cur, universe, self.succ(cur).len()).len() >= 2,
            0 <= k < self.succ(cur).len(),
            universe.contains(self.succ(cur)[k]),
            0 <= j < self.succ(self.succ(cur)[k]).len(),
            universe.contains(self.succ(self.succ(cur)[k])[j]),
        ensures
            f < self.n(),
            f != cur,
            self.cfg.within(universe.remove(cur)).reaches(self.succ(cur)[k], f),
    {
        let live = self.live_cases(cur, universe, self.succ(cur).len());
        let g = self.cfg.within(universe.remove(cur));
        let not = Some(cur);
        law_confluence(self.cfg, g, live, |c: usize| not != Some(c), f);
        self.lemma_live(cur, universe, self.succ(cur).len(), k);
        let i = choose|i: int| 0 <= i < live.len() && live[i] == self.succ(cur)[k];
        assert(g.reaches(live[i], f));
    }

    proof fn lemma_live(self, cur: usize, universe: Set<usize>, m: nat, k: int)
        requires
            0 <= k < m <= self.succ(cur).len(),
            self.goes_on(self.succ(cur)[k], universe),
        ensures
            self.live_cases(cur, universe, m).contains(self.succ(cur)[k]),
        decreases m,
    {
        let rest = self.live_cases(cur, universe, (m - 1) as nat);
        let s = self.succ(cur)[m - 1];
        if k == m - 1 {
            assert(rest.push(s)[rest.len() as int] == s);
        } else {
            self.lemma_live(cur, universe, (m - 1) as nat, k);
            let i = choose|i: int| 0 <= i < rest.len() && rest[i] == self.succ(cur)[k];
            assert(rest.push(s)[i] == self.succ(cur)[k]);
        }
    }

    // -- trees without jumps ------------------------------------------------------

    /// Taking jumps off the ends of a region keeps every block in it.
    pub proof fn law_stripped_keeps(self, r: Tree, target: usize, seen: Set<usize>, b: usize)
        ensures
            self.stripped(r, target, seen).0.mentions(b) == r.mentions(b),
        decreases r,
    {
        let out = self.stripped(r, target, seen).0;
        match r {
            Tree::Sequence(v) => {
                if v.len() > 0 {
                    self.law_stripped_keeps(v[v.len() - 1], target, seen, b);
                    lemma_last_keeps(v, self.stripped(v[v.len() - 1], target, seen).0, b);
                }
            },
            Tree::If { then_r, else_r, .. } => {
                let s1 = self.stripped(*then_r, target, seen).1;
                self.law_stripped_keeps(*then_r, target, seen, b);
                self.law_stripped_keeps(*else_r, target, s1, b);
            },
            _ => {},
        }
    }

    /// So does taking off the jumps to blocks behind `pc`.
    pub proof fn law_unjumped_keeps(self, r: Tree, pc: u32, b: usize)
        ensures
            self.unjumped(r, pc).mentions(b) == r.mentions(b),
        decreases r,
    {
        match r {
            Tree::Sequence(v) => {
                if v.len() > 0 {
                    self.law_unjumped_keeps(v[v.len() - 1], pc, b);
                    lemma_last_keeps(v, self.unjumped(v[v.len() - 1], pc), b);
                }
            },
            Tree::If { then_r, else_r, .. } => {
                self.law_unjumped_keeps(*then_r, pc, b);
                self.law_unjumped_keeps(*else_r, pc, b);
            },
            _ => {},
        }
    }
}

proof fn lemma_last_keeps(v: Seq<Tree>, last: Tree, b: usize)
    requires
        v.len() > 0,
        last.mentions(b) == v[v.len() - 1].mentions(b),
    ensures
        Tree::Sequence(with_last(v, last)).mentions(b) == Tree::Sequence(v).mentions(b),
{
    let w = with_last(v, last);
    Tree::Sequence(v).lemma_mentions_step(b);
    Tree::Sequence(w).lemma_mentions_step(b);
    assert(Tree::Sequence(v).inner() == v);
    assert(Tree::Sequence(w).inner() == w);
    if Tree::Sequence(v).mentions(b) {
        let i = choose|i: int| 0 <= i < v.len() && (#[trigger] v[i]).mentions(b);
        if i == v.len() - 1 {
            assert(!(last is Empty));
            assert(w[i] == last);
        } else {
            assert(w[i] == v[i]);
        }
    }
    if Tree::Sequence(w).mentions(b) {
        let i = choose|i: int| 0 <= i < w.len() && (#[trigger] w[i]).mentions(b);
        if i == v.len() - 1 {
            assert(w[i] == last);
            assert(v[i].mentions(b));
        } else {
            assert(w[i] == v[i]);
        }
    }
}

/// What is reused of a copy is all of it from its part at `target` on.
pub proof fn law_suffix(copy: Tree, target: usize, k: nat)
    requires
        k <= copy.parts().len(),
        copy matches Tree::Sequence(_) || k == 0,
    ensures
        suffix_at(copy, target, k) matches Some(x) ==> exists|i: int|
            k <= i < copy.parts().len() && (#[trigger] copy.parts()[i]).head() == target && x == joined(copy.parts().skip(i)),
        suffix_at(copy, target, k) is None ==> forall|i: int|
            k <= i < copy.parts().len() ==> (#[trigger] copy.parts()[i]).head() != target,
    decreases copy.parts().len() - k,
{
    let v = copy.parts();
    if k < v.len() && v[k as int].head() == target {
        assert(v.skip(k as int).len() == v.len() - k);
        assert(v.skip(k as int)[0] == v[k as int]);
    } else if k < v.len() && copy is Sequence {
        law_suffix(copy, target, k + 1);
    }
}

/// A list of parts as one region shows what its parts show.
pub proof fn law_joined(v: Seq<Tree>, b: usize)
    ensures
        joined(v).mentions(b) <==> exists|i: int| 0 <= i < v.len() && (#[trigger] v[i]).mentions(b),
{
    if v.len() == 1 {
        assert(v[0] == joined(v));
    } else if v.len() > 1 {
        Tree::Sequence(v).lemma_mentions_step(b);
        assert(Tree::Sequence(v).inner() == v);
    }
}

/// An arm without its fall-through into the next case shows what it showed.
pub proof fn law_without_fallthrough(r: Tree, heads: Set<usize>, b: usize)
    ensures
        r.without_fallthrough(heads).mentions(b) == r.mentions(b),
{
    match r {
        Tree::Sequence(v) => {
            r.lemma_mentions_step(b);
            assert(r.inner() == v);
            let w = if v.len() > 0 && (v[v.len() - 1] matches Tree::Goto { target } && heads.contains(target)) {
                v.drop_last()
            } else {
                v
            };
            law_joined(w, b);
            if r.mentions(b) {
                let i = choose|i: int| 0 <= i < v.len() && (#[trigger] v[i]).mentions(b);
                assert(w[i] == v[i]);
            }
            if joined(w).mentions(b) {
                let i = choose|i: int| 0 <= i < w.len() && (#[trigger] w[i]).mentions(b);
                assert(w[i] == v[i]);
            }
        },
        _ => {},
    }
}

/// The block where several ways come together is one that each of them
/// reaches, and the nearest such; there is none only where they share no block
/// that passes.
pub proof fn law_confluence(cfg: Cfg, g: Graph, srcs: Seq<usize>, ok: spec_fn(usize) -> bool, d: usize)
    requires
        cfg.n() <= usize::MAX,
    ensures
        ({
            let gs = repeated(g, srcs.len());
            let shared = d < cfg.n() && ok(d) && forall|i: int| 0 <= i < srcs.len() ==> g.reaches(#[trigger] srcs[i], d);
            match nearest_of(cfg, gs, srcs, ok) {
                Some(c) => {
                    &&& c < cfg.n()
                    &&& ok(c)
                    &&& forall|i: int| 0 <= i < srcs.len() ==> g.reaches(#[trigger] srcs[i], c)
                    &&& shared ==> score(gs, srcs, c, srcs.len()) <= score(gs, srcs, d, srcs.len())
                },
                None => !shared,
            }
        }),
{
    let gs = repeated(g, srcs.len());
    let shared = d < cfg.n() && ok(d) && forall|i: int| 0 <= i < srcs.len() ==> g.reaches(#[trigger] srcs[i], d);
    if shared {
        assert forall|i: int| 0 <= i < gs.len() implies (#[trigger] gs[i]).reaches(srcs[i], d) by {}
        assert(meets(gs, srcs, d));
    }
    match nearest_of(cfg, gs, srcs, ok) {
        Some(c) => {
            assert(nearest(cfg, gs, srcs, ok, c));
            assert forall|i: int| 0 <= i < srcs.len() implies g.reaches(#[trigger] srcs[i], c) by {
                assert(gs[i].reaches(srcs[i], c));
            }
        },
        None => {
            let best = merge_laws::lemma_best(cfg, gs, srcs, ok, cfg.n());
            if best is Some {
                assert(nearest(cfg, gs, srcs, ok, best->0));
            }
        },
    }
}

/// The total is the sum of the shortest ways from the sources.
pub proof fn law_score(g: Graph, srcs: Seq<usize>, c: usize, k: nat)
    requires
        k < srcs.len(),
    ensures
        score(repeated(g, srcs.len()), srcs, c, 0) == 0,
        score(repeated(g, srcs.len()), srcs, c, k + 1) == score(repeated(g, srcs.len()), srcs, c, k) + g.dist(
            srcs[k as int],
            c,
        )->0,
{
}

} // verus!
