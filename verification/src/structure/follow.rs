//! Where flow goes on behind a construct.

use std::collections::HashSet;

use vstd::prelude::*;

use crate::ir::Term;
use crate::sets::list_has;
use crate::structure::env;
use crate::structure::env::Env;
use crate::structure::merge_point;
use crate::structure::region;
use crate::structure::region::{Region, Tree};
use crate::structure::scope;
use crate::structure::scope::flood_within;
use crate::structure::structurer::Structurer;

verus! {

broadcast use vstd::std_specs::hash::group_hash_axioms;

impl Env {
    // -- continuations --------------------------------------------------------

    /// From block `k` on: behind `pc`, `n` comes before the stop set and before
    /// any block still to be claimed.
    pub open spec fn cont_scan(self, pc: u32, n: usize, stop: Set<usize>, claimed: Set<usize>, k: nat) -> bool
        decreases self.n() - k,
    {
        if k >= self.n() {
            false
        } else {
            let b = k as usize;
            if self.start(b) < pc {
                self.cont_scan(pc, n, stop, claimed, k + 1)
            } else if stop.contains(b) {
                false
            } else if b == n {
                true
            } else if !claimed.contains(b) && !self.is_handler(b) {
                false
            } else {
                self.cont_scan(pc, n, stop, claimed, k + 1)
            }
        }
    }

    pub open spec fn cont_of(self, gs: Seq<usize>, n: usize, stop: Set<usize>, claimed: Set<usize>) -> bool {
        exists|i: int|
            0 <= i < gs.len() && self.cont_scan(self.groups[#[trigger] gs[i] as int].end, n, stop, claimed, 0)
    }

    /// `n` is where a group being structured goes on.
    pub open spec fn owned_cont(self, n: usize, stop: Set<usize>, claimed: Set<usize>, active: Seq<usize>, structuring: Seq<usize>) -> bool {
        self.cont_of(active, n, stop, claimed) || self.cont_of(structuring, n, stop, claimed)
    }

    /// From block `k` on: the first unclaimed block behind `pc`, unless an
    /// excluded one comes before.
    pub open spec fn next_after(self, pc: u32, universe: Set<usize>, claimed: Set<usize>, exclude: Set<usize>, k: nat) -> Option<usize>
        decreases self.n() - k,
    {
        if k >= self.n() {
            None
        } else {
            let b = k as usize;
            if self.start(b) < pc {
                self.next_after(pc, universe, claimed, exclude, k + 1)
            } else if exclude.contains(b) {
                None
            } else if universe.contains(b) && !claimed.contains(b) && !self.is_handler(b) {
                Some(b)
            } else {
                self.next_after(pc, universe, claimed, exclude, k + 1)
            }
        }
    }

    /// `t` lies behind an active group: its continuation, for a walk at `cur`.
    pub open spec fn active_cont(self, cur: usize, t: usize, claimed: Set<usize>, active: Seq<usize>) -> bool {
        let g = self.groups[self.body[t] as int];
        &&& !(self.body.dom().contains(t) && g.start == self.start(t) && claimed.contains(t) && !(g.start <= self.start(cur)
            < g.end))
        &&& !self.is_handler(t)
        &&& exists|i: int|
            0 <= i < active.len() && self.start(t) >= self.groups[#[trigger] active[i] as int].end && !self.in_body(
                t,
                active[i],
            )
    }

    // -- trailing jumps -------------------------------------------------------

    /// The tree without the jumps at its ends that only lead to `target`.
    pub open spec fn stripped(self, r: Tree, target: usize, seen: Set<usize>) -> (Tree, Set<usize>)
        decreases r,
    {
        match r {
            Tree::Goto { target: t } => if t == target {
                (Tree::Empty, seen)
            } else if t < self.n() {
                let (hit, s) = self.stub_walk(t, target, seen, 8);
                (if hit {
                    Tree::Empty
                } else {
                    r
                }, s)
            } else {
                (r, seen)
            },
            Tree::Sequence(v) => if v.len() == 0 {
                (r, seen)
            } else {
                let (last, s) = self.stripped(v[v.len() - 1], target, seen);
                (Tree::Sequence(with_last(v, last)), s)
            },
            Tree::If { block, cond, then_r, else_r, follow, ternary } => {
                let (t, s1) = self.stripped(*then_r, target, seen);
                let (f, s2) = self.stripped(*else_r, target, s1);
                (Tree::If { block, cond, then_r: Box::new(t), else_r: Box::new(f), follow, ternary }, s2)
            },
            _ => (r, seen),
        }
    }

    /// The tree without the jumps at its ends to blocks behind `pc`.
    pub open spec fn unjumped(self, r: Tree, pc: u32) -> Tree
        decreases r,
    {
        match r {
            Tree::Goto { target: t } => if t < self.n() && self.start(t) >= pc && !self.is_handler(t) {
                Tree::Empty
            } else {
                r
            },
            Tree::Sequence(v) => if v.len() == 0 {
                r
            } else {
                Tree::Sequence(with_last(v, self.unjumped(v[v.len() - 1], pc)))
            },
            Tree::If { block, cond, then_r, else_r, follow, ternary } => Tree::If {
                block,
                cond,
                then_r: Box::new(self.unjumped(*then_r, pc)),
                else_r: Box::new(self.unjumped(*else_r, pc)),
                follow,
                ternary,
            },
            _ => r,
        }
    }

    /// Stripping jumps adds no block.
    pub(crate) proof fn lemma_stripped(self, r: Tree, target: usize, seen: Set<usize>)
        requires
            r.within(self.n(), self.groups.len()),
        ensures
            self.stripped(r, target, seen).0.within(self.n(), self.groups.len()),
        decreases r,
    {
        let g = self.groups.len();
        match r {
            Tree::Sequence(v) => if v.len() > 0 {
                assert(v[v.len() - 1].within(self.n(), g));
                self.lemma_stripped(v[v.len() - 1], target, seen);
                lemma_with_last(v, self.stripped(v[v.len() - 1], target, seen).0, self.n(), g);
            },
            Tree::If { then_r, else_r, .. } => {
                self.lemma_stripped(*then_r, target, seen);
                self.lemma_stripped(*else_r, target, self.stripped(*then_r, target, seen).1);
            },
            _ => {},
        }
    }

    pub(crate) proof fn lemma_unjumped(self, r: Tree, pc: u32)
        requires
            r.within(self.n(), self.groups.len()),
        ensures
            self.unjumped(r, pc).within(self.n(), self.groups.len()),
        decreases r,
    {
        let g = self.groups.len();
        match r {
            Tree::Sequence(v) => if v.len() > 0 {
                assert(v[v.len() - 1].within(self.n(), g));
                self.lemma_unjumped(v[v.len() - 1], pc);
                lemma_with_last(v, self.unjumped(v[v.len() - 1], pc), self.n(), g);
            },
            Tree::If { then_r, else_r, .. } => {
                self.lemma_unjumped(*then_r, pc);
                self.lemma_unjumped(*else_r, pc);
            },
            _ => {},
        }
    }

    // -- loops ---------------------------------------------------------------

    /// The tree ends in a jump to an exit that no handler heads.
    pub open spec fn ends_at_exit(self, r: Tree, exits: Seq<usize>) -> bool {
        match r.last_goto() {
            Some(t) => exits.contains(t) && !self.is_handler(t),
            None => false,
        }
    }

    /// The exit is no mere way back to an enclosing loop header.
    pub open spec fn live_exit(self, x: usize, cands: Set<usize>, loops: Seq<usize>) -> bool {
        forall|i: int|
            0 <= i < loops.len() ==> {
                let h = #[trigger] loops[i];
                h == x || !self.stub_chain(x, h) || self.stub_claims(x, x, h, cands, Set::empty())
            }
    }

    pub open spec fn exits_in(self, exits: Seq<usize>, universe: Set<usize>, stop: Set<usize>) -> Set<usize> {
        Set::new(|x: usize| exits.contains(x) && universe.contains(x) && !stop.contains(x))
    }

    /// The live exit that starts first, among the first `k`.
    pub open spec fn first_exit(self, exits: Seq<usize>, universe: Set<usize>, stop: Set<usize>, loops: Seq<usize>, k: nat) -> Option<usize>
        decreases k,
    {
        if k == 0 {
            None
        } else {
            let best = self.first_exit(exits, universe, stop, loops, (k - 1) as nat);
            let x = exits[k - 1];
            if universe.contains(x) && !stop.contains(x) && self.live_exit(
                x,
                self.exits_in(exits, universe, stop),
                loops,
            ) && (best matches Some(b) ==> self.start(x) < self.start(b)) {
                Some(x)
            } else {
                best
            }
        }
    }

    pub open spec fn next_after_loop(self, r: Tree, universe: Set<usize>, stop: Set<usize>, loops: Seq<usize>) -> Option<usize> {
        match r {
            Tree::Loop { exits, .. } => self.first_exit(exits, universe, stop, loops, exits.len()),
            _ => None,
        }
    }

    // -- switches --------------------------------------------------------------

    /// The blocks that flow from `t` leaves `free` for.
    pub open spec fn escapes(self, t: usize, free: Set<usize>) -> Set<usize> {
        if !free.contains(t) {
            Set::empty().insert(t)
        } else {
            Set::new(
                |s: usize|
                    !free.contains(s) && exists|b: usize|
                        self.cfg.within(free).reaches(t, b) && #[trigger] self.succ(b).contains(s),
            )
        }
    }

    /// A case of the switch that leaves the region.
    pub open spec fn escaping(self, t: usize, free: Set<usize>) -> bool {
        !self.is_terminator(t) && self.escapes(t, free) != Set::<usize>::empty()
    }

    /// Every case that leaves the region leaves it for `e` alone.
    pub open spec fn all_escape_to(self, cur: usize, free: Set<usize>, e: usize) -> bool {
        &&& exists|k: int| 0 <= k < self.succ(cur).len() && self.escaping(#[trigger] self.succ(cur)[k], free)
        &&& forall|k: int|
            0 <= k < self.succ(cur).len() && self.escaping(#[trigger] self.succ(cur)[k], free) ==> self.escapes(
                self.succ(cur)[k],
                free,
            ) == Set::<usize>::empty().insert(e)
    }

    pub open spec fn stop_confluence(self, cur: usize, universe: Set<usize>, stop: Set<usize>) -> Option<usize> {
        let free = universe.difference(stop);
        if exists|e: usize| self.all_escape_to(cur, free, e) {
            Some(choose|e: usize| self.all_escape_to(cur, free, e))
        } else {
            None
        }
    }

    /// The switch terminal at `b` has a default target.
    pub open spec fn has_default(self, b: usize) -> bool {
        b < self.results.len() && (self.term(b) matches Term::Switch { default, .. } && default is Some)
    }

    /// Every way through the tree falls through or jumps to `f`.
    pub open spec fn binds(self, r: Tree, f: usize) -> bool
        decreases r, 1nat, 0nat,
    {
        match r {
            Tree::Basic { .. } => true,
            Tree::Goto { target } => target == f,
            Tree::Sequence(v) => v.len() > 0 && self.binds(v[v.len() - 1], f),
            Tree::If { then_r, else_r, .. } => self.binds(*then_r, f) && self.binds(*else_r, f),
            Tree::Loop { exits, .. } => exits.len() > 0 && forall|i: int| 0 <= i < exits.len() ==> #[trigger] exits[i] == f,
            Tree::Switch { block, cases, default, .. } => {
                &&& self.has_default(block)
                &&& default matches Some(d) && self.binds(*d, f)
                &&& self.cases_bind(r, f, cases.len())
            },
            _ => false,
        }
    }

    /// The first `k` cases are empty or bind to `f`.
    pub open spec fn cases_bind(self, r: Tree, f: usize, k: nat) -> bool
        decreases r, 0nat, k,
    {
        match r {
            Tree::Switch { cases, .. } => if k == 0 || k > cases.len() {
                k == 0
            } else {
                self.cases_bind(r, f, (k - 1) as nat) && (cases[k - 1].1 is Empty || self.binds(cases[k - 1].1, f))
            },
            _ => true,
        }
    }

    /// The switch region can take `f` as its follow.
    pub open spec fn bindable(self, r: Tree, f: usize) -> bool {
        r is Switch && self.binds(r, f)
    }

    /// Something happens on the plain chain from `b`.
    pub open spec fn has_content(self, e: usize, b: usize, stop: Set<usize>, loops: Seq<usize>, fuel: nat) -> bool
        decreases fuel,
    {
        if fuel == 0 {
            false
        } else if !self.quiet(b) || self.term(b) is Cond || self.term(b) is Switch {
            true
        } else {
            match self.hop(b) {
                Some(y) => y != e && !stop.contains(y) && !loops.contains(y) && self.has_content(
                    e,
                    y,
                    stop,
                    loops,
                    (fuel - 1) as nat,
                ),
                None => false,
            }
        }
    }

    /// Flow goes on inside `universe` behind `s`.
    pub open spec fn goes_on(self, s: usize, universe: Set<usize>) -> bool {
        universe.contains(s) && exists|k: int| 0 <= k < self.succ(s).len() && universe.contains(#[trigger] self.succ(s)[k])
    }

    /// The cases of the switch at `cur` that go on, in order.
    pub open spec fn live_cases(self, cur: usize, universe: Set<usize>, k: nat) -> Seq<usize>
        decreases k,
    {
        if k == 0 {
            Seq::empty()
        } else {
            let rest = self.live_cases(cur, universe, (k - 1) as nat);
            let s = self.succ(cur)[k - 1];
            if self.goes_on(s, universe) {
                rest.push(s)
            } else {
                rest
            }
        }
    }

    /// `p` is `t`, or comes behind a block of `d` reached from `t` inside `d`.
    pub open spec fn leads(self, d: Set<usize>, t: usize, p: usize) -> bool {
        t == p || (d.contains(t) && self.cfg.bypasses(t, p, scope::outside(self.cfg, d)))
    }

    pub open spec fn some_case_leads(self, d: Set<usize>, b: usize, p: usize) -> bool {
        exists|k: int| 0 <= k < self.succ(b).len() && self.leads(d, #[trigger] self.succ(b)[k], p)
    }

    /// All ways to `c` come through the switch at `b`.
    pub open spec fn fed_by(self, d: Set<usize>, b: usize, c: usize) -> bool {
        forall|k: int| 0 <= k < self.pred(c).len() ==> self.some_case_leads(d, b, #[trigger] self.pred(c)[k])
    }

    /// `c` merges another switch of `d`.
    pub open spec fn nested_merge(self, cur: usize, d: Set<usize>, c: usize) -> bool {
        self.pred(c).len() >= 2 && exists|b: usize|
            b < self.n() && b != cur && self.term(b) is Switch && d.contains(b) && #[trigger] self.fed_by(d, b, c)
    }

    /// The block only leaves one value for its one successor.
    pub open spec fn pushes_one(self, p: usize) -> bool {
        self.quiet(p) && self.results[p as int].out_stack@.len() == 1 && self.succ(p).len() == 1
    }

    /// `c` merges value pushes of `d`.
    pub open spec fn value_merge(self, d: Set<usize>, c: usize) -> bool {
        &&& exists|k: int| 0 <= k < self.pred(c).len() && d.contains(#[trigger] self.pred(c)[k])
        &&& forall|k: int|
            0 <= k < self.pred(c).len() && d.contains(#[trigger] self.pred(c)[k]) ==> self.pushes_one(self.pred(c)[k])
    }

    /// `c` ends the method for this one case of the switch.
    pub open spec fn private_end(self, cur: usize, d: Set<usize>, c: usize) -> bool {
        self.term(c).abrupt() && self.succ(cur).len() > 1 && forall|k: int|
            0 <= k < self.pred(c).len() ==> d.contains(#[trigger] self.pred(c)[k]) || self.pred(c)[k] == cur
    }

    pub open spec fn can_follow(self, cur: usize, d: Set<usize>, c: usize) -> bool {
        d.contains(c) && self.pred(c).len() >= 2 && !self.nested_merge(cur, d, c) && !self.value_merge(d, c)
            && !self.private_end(cur, d, c)
    }

    /// Of the first `k` blocks, the possible follow that starts first.
    pub open spec fn first_follow(self, cur: usize, d: Set<usize>, k: nat) -> Option<usize>
        decreases k,
    {
        if k == 0 {
            None
        } else {
            let best = self.first_follow(cur, d, (k - 1) as nat);
            let c = (k - 1) as usize;
            if self.can_follow(cur, d, c) && (best matches Some(b) ==> self.start(c) < self.start(b)) {
                Some(c)
            } else {
                best
            }
        }
    }

    /// Where the cases of the switch at `cur` come together.
    pub open spec fn switch_follow(self, cur: usize, universe: Set<usize>) -> Option<usize> {
        let live = self.live_cases(cur, universe, self.succ(cur).len());
        let free = self.cfg.within(universe.remove(cur));
        if live.len() == 0 {
            None
        } else if live.len() == 1 {
            self.first_follow(cur, free.reach(live[0]), self.n())
        } else {
            let not = Some(cur);
            merge_point::nearest_of(self.cfg, merge_point::repeated(free, live.len()), live, |c: usize| not != Some(c))
        }
    }

    // -- shared tails -----------------------------------------------------------

    /// A search from `q` comes to a return.
    pub open spec fn any_return(self, q: Seq<usize>, seen: Set<usize>, fuel: nat) -> bool
        decreases fuel,
    {
        if q.len() == 0 || fuel == 0 {
            false
        } else {
            let x = q[0];
            if seen.contains(x) {
                self.any_return(q.skip(1), seen, (fuel - 1) as nat)
            } else if self.term(x) is Return {
                true
            } else {
                self.any_return(q.skip(1) + self.succ(x), seen.insert(x), (fuel - 1) as nat)
            }
        }
    }

    /// How many of the first `k` ways into `b` are no handlers.
    pub open spec fn normal_preds(self, b: usize, k: nat) -> nat
        decreases k,
    {
        if k == 0 {
            0
        } else {
            self.normal_preds(b, (k - 1) as nat) + if self.is_handler(self.pred(b)[k - 1]) {
                0nat
            } else {
                1nat
            }
        }
    }

    /// Many ways meet at `b` and a return lies behind.
    pub open spec fn shared_tail(self, b: usize) -> bool {
        &&& !self.is_terminator(b)
        &&& !self.is_handler(b)
        &&& !self.group_starts(self.start(b))
        &&& self.normal_preds(b, self.pred(b).len()) >= 8
        &&& self.any_return(seq![b], Set::empty(), 4096)
    }

    pub open spec fn small_closure(self, b: usize, bar: Set<usize>) -> bool {
        self.reach_within(b, bar).len() <= 8
    }

    /// A search of at most 64 blocks from `q` finds every way to end in a return or throw.
    pub open spec fn all_end(self, q: Seq<usize>, seen: Set<usize>, count: nat) -> bool
        decreases 65 - count, q.len(),
    {
        if q.len() == 0 {
            true
        } else {
            let x = q[0];
            if seen.contains(x) {
                self.all_end(q.skip(1), seen, count)
            } else if count >= 64 {
                false
            } else if self.term(x).abrupt() {
                self.all_end(q.skip(1), seen.insert(x), count + 1)
            } else if self.succ(x).len() == 0 || (self.term(x).plain() && self.succ(x).len() != 1) {
                false
            } else {
                self.all_end(q.skip(1) + self.succ(x), seen.insert(x), count + 1)
            }
        }
    }

    /// Flow from `cur` comes to the stop block `h` before any other barrier.
    pub open spec fn stop_hit(self, cur: usize, stop: Set<usize>, claimed: Set<usize>, h: usize) -> bool {
        stop.contains(h) && h != cur && self.cfg.bypasses(cur, h, stop.union(claimed).remove(cur))
    }

    pub open spec fn only_stop_hit(self, cur: usize, stop: Set<usize>, claimed: Set<usize>, h: usize) -> bool {
        self.stop_hit(cur, stop, claimed, h) && forall|o: usize| #[trigger] self.stop_hit(cur, stop, claimed, o) ==> o == h
    }

    /// The one stop block that flow from `cur` comes to.
    pub open spec fn appendix_target(self, cur: usize, stop: Set<usize>, claimed: Set<usize>) -> Option<usize> {
        if exists|h: usize| self.only_stop_hit(cur, stop, claimed, h) {
            Some(choose|h: usize| self.only_stop_hit(cur, stop, claimed, h))
        } else {
            None
        }
    }

    // -- pure branches ------------------------------------------------------------

    /// An active group starts at the block.
    pub open spec fn active_start(self, b: usize, active: Seq<usize>) -> bool {
        exists|gi: usize|
            gi < self.groups.len() && #[trigger] active.contains(gi) && self.groups[gi as int].start == self.start(b)
    }

    /// The block only sets locals and falls through.
    pub open spec fn sets_only(self, b: usize) -> bool {
        &&& self.cfg.len(b) != 0
        &&& self.succ(b).len() == 1
        &&& self.term(b) is Fallthrough
        &&& forall|i: int|
            0 <= i < self.results[b as int].stmts@.len() ==> env::sets_local(#[trigger] self.results[b as int].stmts@[i])
    }

    /// The block can stand alone as a branch: nothing behind it is the branch's to walk.
    pub open spec fn absorbable(
        self,
        b: usize,
        universe: Set<usize>,
        stop: Set<usize>,
        claimed: Set<usize>,
        active: Seq<usize>,
        structuring: Seq<usize>,
        loops: Seq<usize>,
    ) -> bool {
        let s = self.succ(b)[0];
        &&& universe.contains(b)
        &&& !self.active_start(b, active)
        &&& self.sets_only(b)
        &&& !(universe.contains(s) && !stop.contains(s))
        &&& !(claimed.contains(s) && !self.owned_cont(s, stop, claimed, active, structuring) && !stop.contains(s)
            && !loops.contains(s) && !self.writes_final(s))
    }

    /// The branch that an absorbable block makes.
    pub open spec fn absorbed(self, b: usize, claimed: Set<usize>) -> Tree {
        if !claimed.contains(b) {
            Tree::Basic { block: b }
        } else if self.quiet(b) {
            Tree::Empty
        } else {
            Tree::CopyStmts { block: b }
        }
    }

    /// The block only leaves values for its one successor.
    pub open spec fn pushes(self, b: usize) -> bool {
        self.cfg.len(b) != 0 && self.quiet(b) && self.results[b as int].out_stack@.len() > 0 && self.hop(b) is Some
    }

    /// Where the value pushes from `b` on lead, within `fuel` blocks.
    pub open spec fn push_end(self, b: usize, universe: Set<usize>, stop: Set<usize>, claimed: Set<usize>, fuel: nat) -> Option<usize>
        decreases fuel,
    {
        if fuel == 0 || !universe.contains(b) || stop.contains(b) {
            None
        } else if !self.pushes(b) {
            Some(b)
        } else if claimed.contains(b) {
            None
        } else {
            self.push_end(self.hop(b)->0, universe, stop, claimed, (fuel - 1) as nat)
        }
    }

    /// Statement-free flow leads from `b` to `merge` on every way; with the blocks passed.
    pub open spec fn diamond(
        self,
        b: usize,
        merge: usize,
        universe: Set<usize>,
        stop: Set<usize>,
        claimed: Set<usize>,
        seen: Set<usize>,
        depth: nat,
        fuel: nat,
    ) -> (bool, Set<usize>)
        decreases 33 - depth, fuel,
    {
        if depth > 32 || fuel == 0 {
            (false, seen)
        } else if b == merge {
            (true, seen)
        } else if stop.contains(b) || claimed.contains(b) || !universe.contains(b) {
            (false, seen)
        } else if self.cfg.len(b) == 0 {
            if self.succ(b).len() == 0 {
                (false, seen)
            } else {
                self.diamond(self.succ(b)[0], merge, universe, stop, claimed, seen.insert(b), depth, (fuel - 1) as nat)
            }
        } else if !self.quiet(b) {
            (false, seen)
        } else if self.term(b).plain() {
            if self.succ(b).len() != 1 {
                (false, seen)
            } else {
                self.diamond(self.succ(b)[0], merge, universe, stop, claimed, seen.insert(b), depth, (fuel - 1) as nat)
            }
        } else if self.term(b) is Cond && self.succ(b).len() == 2 {
            let (ok0, s0) = self.diamond(self.succ(b)[0], merge, universe, stop, claimed, Set::empty(), depth + 1, 10_000);
            if !ok0 {
                (false, seen.insert(b))
            } else {
                let (ok1, s1) = self.diamond(self.succ(b)[1], merge, universe, stop, claimed, s0, depth + 1, 10_000);
                if ok1 {
                    (true, seen.insert(b).union(s1))
                } else {
                    (false, seen.insert(b))
                }
            }
        } else {
            (false, seen)
        }
    }
}

/// The sequence with its last part replaced, dropped if that is empty.
pub open spec fn with_last(v: Seq<Tree>, last: Tree) -> Seq<Tree> {
    if last is Empty {
        v.drop_last()
    } else {
        v.drop_last().push(last)
    }
}

proof fn lemma_with_last(v: Seq<Tree>, last: Tree, n: nat, g: nat)
    requires
        v.len() > 0,
        Tree::Sequence(v).within(n, g),
        last.within(n, g),
    ensures
        Tree::Sequence(with_last(v, last)).within(n, g),
{
    let r = Tree::Sequence(v);
    let u = with_last(v, last);
    assert(u.len() <= v.len());
    assert forall|i: int| 0 <= i < u.len() implies (#[trigger] u[i]).within(n, g) by {
        assert(r->Sequence_0[i].within(n, g));
    }
}

impl<'a> Structurer<'a> {
    /// The group indexes are those of groups.
    pub open spec fn groups_ok(self, gs: Seq<usize>) -> bool {
        forall|i: int| 0 <= i < gs.len() ==> #[trigger] gs[i] < self.groups@.len()
    }

    fn scan_cont(&self, gi: usize, n: usize, stop: &HashSet<usize>, claimed: &HashSet<usize>) -> (r: bool)
        requires
            self.wf(),
            gi < self.groups@.len(),
        ensures
            r == self.env().cont_scan(self.env().groups[gi as int].end, n, stop@, claimed@, 0),
    {
        let ghost e = self.env();
        let pc = self.groups[gi].end;
        assert(e.groups[gi as int] == self.groups@[gi as int]@);
        let mut k: usize = 0;
        while k < self.cfg.blocks.len()
            invariant
                e == self.env(),
                k <= e.n(),
                pc == e.groups[gi as int].end,
                e.cont_scan(pc, n, stop@, claimed@, k as nat) == e.cont_scan(pc, n, stop@, claimed@, 0),
            decreases e.n() - k,
        {
            if self.cfg.blocks[k].start >= pc {
                if stop.contains(&k) {
                    return false;
                }
                if k == n {
                    return true;
                }
                if !claimed.contains(&k) && !self.is_handler_block(k) {
                    return false;
                }
            }
            k += 1;
        }
        false
    }

    fn is_cont_of(&self, gs: &Vec<usize>, n: usize, stop: &HashSet<usize>, claimed: &HashSet<usize>) -> (r: bool)
        requires
            self.wf(),
            self.groups_ok(gs@),
        ensures
            r == self.env().cont_of(gs@, n, stop@, claimed@),
    {
        let mut i: usize = 0;
        while i < gs.len()
            invariant
                self.wf(),
                self.groups_ok(gs@),
                i <= gs@.len(),
                forall|j: int|
                    0 <= j < i ==> !self.env().cont_scan(
                        self.env().groups[#[trigger] gs@[j] as int].end,
                        n,
                        stop@,
                        claimed@,
                        0,
                    ),
            decreases gs@.len() - i,
        {
            if self.scan_cont(gs[i], n, stop, claimed) {
                return true;
            }
            i += 1;
        }
        false
    }

    /// `n` is where a group being structured goes on.
    pub(crate) fn is_owned_cont(
        &self,
        n: usize,
        stop: &HashSet<usize>,
        claimed: &HashSet<usize>,
        active: &Vec<usize>,
        structuring: &Vec<usize>,
    ) -> (r: bool)
        requires
            self.wf(),
            self.groups_ok(active@),
            self.groups_ok(structuring@),
        ensures
            r == self.env().owned_cont(n, stop@, claimed@, active@, structuring@),
    {
        self.is_cont_of(active, n, stop, claimed) || self.is_cont_of(structuring, n, stop, claimed)
    }

    /// The first unclaimed block behind `pc`.
    pub(crate) fn continuation_after(&self, pc: u32, universe: &HashSet<usize>, claimed: &HashSet<usize>, exclude: &HashSet<usize>) -> (r: Option<usize>)
        requires
            self.wf(),
        ensures
            r == self.env().next_after(pc, universe@, claimed@, exclude@, 0),
            r matches Some(b) ==> b < self.env().n(),
    {
        let ghost e = self.env();
        let mut k: usize = 0;
        while k < self.cfg.blocks.len()
            invariant
                e == self.env(),
                k <= e.n(),
                e.next_after(pc, universe@, claimed@, exclude@, k as nat) == e.next_after(
                    pc,
                    universe@,
                    claimed@,
                    exclude@,
                    0,
                ),
            decreases e.n() - k,
        {
            if self.cfg.blocks[k].start >= pc {
                if exclude.contains(&k) {
                    return None;
                }
                if universe.contains(&k) && !claimed.contains(&k) && !self.is_handler_block(k) {
                    return Some(k);
                }
            }
            k += 1;
        }
        None
    }

    #[verifier::loop_isolation(false)]
    pub(crate) fn is_active_group_continuation(&self, cur: usize, t: usize, claimed: &HashSet<usize>, active: &Vec<usize>) -> (r: bool)
        requires
            self.wf(),
            cur < self.env().n(),
            t < self.env().n(),
            self.groups_ok(active@),
        ensures
            r == self.env().active_cont(cur, t, claimed@, active@),
    {
        let ghost e = self.env();
        let ts = self.cfg.blocks[t].start;
        if let Some(ogi) = self.body_of(t) {
            assert(e.body.dom().contains(t));
            let g = &self.groups[ogi];
            assert(e.groups[ogi as int] == g@);
            let cs = self.cfg.blocks[cur].start;
            if g.start == ts && claimed.contains(&t) && !(cs >= g.start && cs < g.end) {
                return false;
            }
        }
        if self.is_handler_block(t) {
            return false;
        }
        let mut i: usize = 0;
        while i < active.len()
            invariant
                i <= active@.len(),
                forall|j: int|
                    0 <= j < i ==> !(e.start(t) >= e.groups[#[trigger] active@[j] as int].end && !e.in_body(t, active@[j])),
            decreases active@.len() - i,
        {
            let gi = active[i];
            assert(e.groups[gi as int] == self.groups@[gi as int]@);
            if ts >= self.groups[gi].end && !self.is_in_body(t, gi) {
                assert(e.start(t) >= e.groups[active@[i as int] as int].end);
                return true;
            }
            i += 1;
        }
        false
    }

    /// Drops the jumps at the ends of `r` that only lead to `target`.
    pub(crate) fn strip_goto(&self, r: Region, target: usize, seen: &mut HashSet<usize>) -> (s: Region)
        requires
            self.wf(),
        ensures
            (s.view(), final(seen)@) == self.env().stripped(r.view(), target, old(seen)@),
        decreases r,
    {
        match r {
            Region::Goto { target: t } => {
                if t == target {
                    return Region::Empty;
                }
                if t < self.n() && self.is_stub_chain_seen(t, target, seen, 8) {
                    return Region::Empty;
                }
                Region::Goto { target: t }
            },
            Region::Sequence(v) => {
                let ghost v0 = v;
                proof {
                    region::lemma_sequence_view(v0);
                }
                let ghost t0 = region::trees(v@);
                let mut v = v;
                if v.len() > 0 {
                    let last = v.pop().unwrap();
                    assert(region::trees(v@) =~= t0.drop_last());
                    assert(t0[t0.len() - 1] == last.view());
                    proof {
                        assert(decreases_to!(v0 => v0@));
                        assert(decreases_to!(v0@ => v0@[v0@.len() - 1]));
                    }
                    let last = self.strip_goto(last, target, seen);
                    let ghost lv = last.view();
                    let gone = last.is_empty_region();
                    if !gone {
                        v.push(last);
                        assert(region::trees(v@) =~= t0.drop_last().push(lv));
                    }
                }
                proof {
                    region::lemma_sequence_view(v);
                }
                Region::Sequence(v)
            },
            Region::If { block, cond, then_r, else_r, follow, ternary } => {
                let t = self.strip_goto(*then_r, target, seen);
                let f = self.strip_goto(*else_r, target, seen);
                Region::If { block, cond, then_r: Box::new(t), else_r: Box::new(f), follow, ternary }
            },
            other => other,
        }
    }

    /// Drops the jumps at the ends of `r` to blocks behind `pc`.
    pub(crate) fn strip_exit(&self, r: Region, pc: u32) -> (s: Region)
        requires
            self.wf(),
        ensures
            s.view() == self.env().unjumped(r.view(), pc),
        decreases r,
    {
        match r {
            Region::Goto { target: t } => {
                if t < self.n() && self.cfg.blocks[t].start >= pc && !self.is_handler_block(t) {
                    Region::Empty
                } else {
                    Region::Goto { target: t }
                }
            },
            Region::Sequence(v) => {
                let ghost v0 = v;
                proof {
                    region::lemma_sequence_view(v0);
                }
                let ghost t0 = region::trees(v@);
                let mut v = v;
                if v.len() > 0 {
                    let last = v.pop().unwrap();
                    assert(region::trees(v@) =~= t0.drop_last());
                    assert(t0[t0.len() - 1] == last.view());
                    proof {
                        assert(decreases_to!(v0 => v0@));
                        assert(decreases_to!(v0@ => v0@[v0@.len() - 1]));
                    }
                    let last = self.strip_exit(last, pc);
                    let ghost lv = last.view();
                    if !last.is_empty_region() {
                        v.push(last);
                        assert(region::trees(v@) =~= t0.drop_last().push(lv));
                    }
                }
                proof {
                    region::lemma_sequence_view(v);
                }
                Region::Sequence(v)
            },
            Region::If { block, cond, then_r, else_r, follow, ternary } => {
                let t = self.strip_exit(*then_r, pc);
                let f = self.strip_exit(*else_r, pc);
                Region::If { block, cond, then_r: Box::new(t), else_r: Box::new(f), follow, ternary }
            },
            other => other,
        }
    }

    pub(crate) fn does_end_at_exit(&self, r: &Region, exits: &Vec<usize>) -> (b: bool)
        ensures
            b == self.env().ends_at_exit(r.view(), exits@),
    {
        match r.last_goto() {
            Some(t) => list_has(exits, t) && !self.is_handler_block(t),
            None => false,
        }
    }

    #[verifier::loop_isolation(false)]
    fn is_live_exit(&self, x: usize, cands: &HashSet<usize>, loops: &Vec<usize>) -> (r: bool)
        requires
            self.wf(),
            x < self.env().n(),
        ensures
            r == self.env().live_exit(x, cands@, loops@),
    {
        let ghost e = self.env();
        let mut i: usize = 0;
        while i < loops.len()
            invariant
                i <= loops@.len(),
                forall|j: int|
                    0 <= j < i ==> {
                        let h = #[trigger] loops@[j];
                        h == x || !e.stub_chain(x, h) || e.stub_claims(x, x, h, cands@, Set::empty())
                    },
            decreases loops@.len() - i,
        {
            let h = loops[i];
            if h != x && self.is_stub_chain(x, h) && !self.does_stub_claim(x, h, cands) {
                assert(loops@[i as int] == h);
                return false;
            }
            i += 1;
        }
        true
    }

    /// The block where flow goes on behind a loop.
    #[verifier::loop_isolation(false)]
    pub(crate) fn next_after_loop(&self, r: &Region, universe: &HashSet<usize>, stop: &HashSet<usize>, loops: &Vec<usize>) -> (b: Option<usize>)
        requires
            self.wf(),
            forall|x: usize| #[trigger] universe@.contains(x) ==> x < self.env().n(),
        ensures
            b == self.env().next_after_loop(r.view(), universe@, stop@, loops@),
            b matches Some(x) ==> x < self.env().n(),
    {
        let ghost e = self.env();
        match r {
            Region::Loop { exits, .. } => {
                let mut cands: HashSet<usize> = HashSet::new();
                let mut i: usize = 0;
                while i < exits.len()
                    invariant
                        i <= exits@.len(),
                        forall|x: usize|
                            #[trigger] cands@.contains(x) <==> exits@.take(i as int).contains(x) && universe@.contains(x)
                                && !stop@.contains(x),
                    decreases exits@.len() - i,
                {
                    let x = exits[i];
                    let ghost c0 = cands@;
                    if universe.contains(&x) && !stop.contains(&x) {
                        cands.insert(x);
                    }
                    assert(exits@.take(i + 1) =~= exits@.take(i as int).push(x));
                    assert forall|y: usize|
                        #[trigger] cands@.contains(y) <==> exits@.take(i + 1).contains(y) && universe@.contains(y)
                            && !stop@.contains(y) by {
                        assert(exits@.take(i + 1).contains(y) <==> exits@.take(i as int).contains(y) || y == x) by {
                            if exits@.take(i as int).contains(y) {
                                let k = exits@.take(i as int).index_of(y);
                                assert(exits@.take(i + 1)[k] == y);
                            }
                            assert(exits@.take(i + 1)[i as int] == x);
                        }
                        assert(c0.contains(y) ==> cands@.contains(y));
                    }
                    i += 1;
                }
                assert(exits@.take(i as int) =~= exits@);
                assert(cands@ =~= e.exits_in(exits@, universe@, stop@));
                let mut best: Option<usize> = None;
                i = 0;
                while i < exits.len()
                    invariant
                        i <= exits@.len(),
                        best == e.first_exit(exits@, universe@, stop@, loops@, i as nat),
                        best matches Some(x) ==> x < e.n(),
                    decreases exits@.len() - i,
                {
                    let x = exits[i];
                    if universe.contains(&x) && !stop.contains(&x) && self.is_live_exit(x, &cands, loops) {
                        let better = match best {
                            None => true,
                            Some(b) => self.cfg.blocks[x].start < self.cfg.blocks[b].start,
                        };
                        if better {
                            best = Some(x);
                        }
                    }
                    i += 1;
                }
                best
            },
            _ => None,
        }
    }

    // -- switches --------------------------------------------------------------

    /// The blocks that flow from `t` leaves `free` for.
    #[verifier::loop_isolation(false)]
    fn escapes_of(&self, t: usize, free: &HashSet<usize>) -> (r: HashSet<usize>)
        requires
            self.wf(),
            t < self.env().n(),
        ensures
            r@ == self.env().escapes(t, free@),
            forall|x: usize| #[trigger] r@.contains(x) ==> x < self.env().n(),
    {
        let ghost e = self.env();
        let mut r: HashSet<usize> = HashSet::new();
        if !free.contains(&t) {
            r.insert(t);
            assert(r@ =~= Set::empty().insert(t));
            return r;
        }
        let inner = flood_within(self.cfg, t, free);
        let mut b: usize = 0;
        while b < self.cfg.blocks.len()
            invariant
                b <= e.n(),
                forall|x: usize| #[trigger] r@.contains(x) ==> x < e.n(),
                forall|s: usize|
                    #[trigger] r@.contains(s) <==> !free@.contains(s) && exists|y: usize|
                        y < b && inner@.contains(y) && #[trigger] e.succ(y).contains(s),
            decreases e.n() - b,
        {
            let ghost r0 = r@;
            if inner.contains(&b) {
                let list = self.succ_of(b);
                let mut k: usize = 0;
                while k < list.len()
                    invariant
                        k <= list@.len(),
                        forall|x: usize| #[trigger] r@.contains(x) ==> x < e.n(),
                        forall|s: usize|
                            #[trigger] r@.contains(s) <==> r0.contains(s) || (!free@.contains(s) && exists|j: int|
                                0 <= j < k && #[trigger] list@[j] == s),
                    decreases list@.len() - k,
                {
                    let ghost r1 = r@;
                    let s = list[k];
                    if !free.contains(&s) {
                        r.insert(s);
                    }
                    assert forall|x: usize|
                        #[trigger] r@.contains(x) <==> r0.contains(x) || (!free@.contains(x) && exists|j: int|
                            0 <= j < k + 1 && #[trigger] list@[j] == x) by {
                        if x == s {
                            assert(list@[k as int] == x);
                        }
                        assert(r@.contains(x) <==> r1.contains(x) || (x == s && !free@.contains(s)));
                    }
                    k += 1;
                }
            }
            assert forall|s: usize|
                #[trigger] r@.contains(s) <==> !free@.contains(s) && exists|y: usize|
                    y < b + 1 && inner@.contains(y) && #[trigger] e.succ(y).contains(s) by {
                if r0.contains(s) {
                    let y = choose|y: usize| y < b && inner@.contains(y) && #[trigger] e.succ(y).contains(s);
                    assert(y < b + 1 && inner@.contains(y) && e.succ(y).contains(s));
                    assert(r@.contains(s));
                } else if r@.contains(s) {
                    assert(e.succ(b).contains(s));
                }
                if !free@.contains(s) && (exists|y: usize|
                    y < b + 1 && inner@.contains(y) && #[trigger] e.succ(y).contains(s)) {
                    let y = choose|y: usize| y < b + 1 && inner@.contains(y) && #[trigger] e.succ(y).contains(s);
                    if y < b {
                        assert(r0.contains(s));
                    } else {
                        let j = e.succ(b).index_of(s);
                        assert(e.succ(b)[j] == s);
                    }
                    assert(r@.contains(s));
                }
            }
            b += 1;
        }
        assert forall|s: usize| #[trigger] r@.contains(s) <==> e.escapes(t, free@).contains(s) by {
            if e.escapes(t, free@).contains(s) {
                let y = choose|y: usize| e.cfg.within(free@).reaches(t, y) && #[trigger] e.succ(y).contains(s);
                assert(inner@.contains(y));
            }
        }
        assert(r@ =~= e.escapes(t, free@));
        r
    }

    /// The only element, if there is exactly one.
    fn sole(&self, s: &HashSet<usize>) -> (r: Option<usize>)
        requires
            forall|x: usize| #[trigger] s@.contains(x) ==> x < self.env().n(),
        ensures
            r matches Some(x) ==> s@ == Set::<usize>::empty().insert(x),
            r is None ==> forall|x: usize| s@ != #[trigger] Set::<usize>::empty().insert(x),
    {
        let mut found: Option<usize> = None;
        let mut b: usize = 0;
        while b < self.cfg.blocks.len()
            invariant
                b <= self.env().n(),
                found is None ==> forall|x: usize| x < b ==> !#[trigger] s@.contains(x),
                found matches Some(f) ==> f < b && s@.contains(f) && forall|x: usize|
                    x < b && #[trigger] s@.contains(x) ==> x == f,
            decreases self.env().n() - b,
        {
            if s.contains(&b) {
                if let Some(f) = found {
                    assert forall|x: usize| s@ != #[trigger] Set::<usize>::empty().insert(x) by {
                        assert(s@.contains(f) && s@.contains(b));
                    }
                    return None;
                }
                found = Some(b);
            }
            b += 1;
        }
        proof {
            if let Some(f) = found {
                assert(s@ =~= Set::empty().insert(f));
            } else {
                assert forall|x: usize| s@ != #[trigger] Set::<usize>::empty().insert(x) by {
                    assert(Set::<usize>::empty().insert(x).contains(x));
                }
            }
        }
        found
    }

    /// The one block that every leaving case of the switch leaves for.
    #[verifier::loop_isolation(false)]
    pub(crate) fn switch_stop_confluence(&self, cur: usize, universe: &HashSet<usize>, stop: &HashSet<usize>) -> (r: Option<usize>)
        requires
            self.wf(),
            cur < self.env().n(),
        ensures
            r == self.env().stop_confluence(cur, universe@, stop@),
            r matches Some(x) ==> x < self.env().n(),
    {
        let ghost e = self.env();
        let ghost want_free = universe@.difference(stop@);
        let mut free: HashSet<usize> = HashSet::new();
        let mut b: usize = 0;
        while b < self.cfg.blocks.len()
            invariant
                b <= e.n(),
                forall|x: usize| #[trigger] free@.contains(x) <==> x < b && want_free.contains(x),
            decreases e.n() - b,
        {
            if universe.contains(&b) && !stop.contains(&b) {
                free.insert(b);
            }
            b += 1;
        }
        proof {
            e.lemma_escapes_local(free@, want_free);
        }
        let list = self.succ_of(cur);
        let mut common: Option<usize> = None;
        let mut k: usize = 0;
        while k < list.len()
            invariant
                k <= list@.len(),
                common matches Some(c) ==> c < e.n() && exists|j: int| 0 <= j < k && #[trigger] e.succ(cur)[j] < e.n() && e.escaping(e.succ(cur)[j], want_free),
                common matches Some(c) ==> forall|j: int|
                    0 <= j < k && e.escaping(#[trigger] e.succ(cur)[j], want_free) ==> e.escapes(
                        e.succ(cur)[j],
                        want_free,
                    ) == Set::<usize>::empty().insert(c),
                common is None ==> forall|j: int| 0 <= j < k ==> !e.escaping(#[trigger] e.succ(cur)[j], want_free),
            decreases list@.len() - k,
        {
            let t = list[k];
            assert(t == e.succ(cur)[k as int]);
            if !self.is_terminator_block(t) {
                let esc = self.escapes_of(t, &free);
                assert(esc@ == e.escapes(t, want_free));
                if !esc.is_empty() {
                    assert(e.escaping(e.succ(cur)[k as int], want_free)) by {
                        if esc@ == Set::<usize>::empty() {
                            assert(esc@.len() == 0);
                        }
                    }
                    match self.sole(&esc) {
                        None => {
                            assert(forall|x: usize| !e.all_escape_to(cur, want_free, x)) by {
                                assert forall|x: usize| !e.all_escape_to(cur, want_free, x) by {
                                    if e.all_escape_to(cur, want_free, x) {
                                        assert(e.escapes(e.succ(cur)[k as int], want_free) == Set::<usize>::empty().insert(x));
                                    }
                                }
                            }
                            return None;
                        },
                        Some(x) => {
                            assert(esc@.contains(x));
                            match common {
                                None => {
                                    common = Some(x);
                                },
                                Some(c) => {
                                    if c != x {
                                        assert forall|y: usize| !e.all_escape_to(cur, want_free, y) by {
                                            if e.all_escape_to(cur, want_free, y) {
                                                assert(e.escapes(e.succ(cur)[k as int], want_free) == Set::<
                                                    usize,
                                                >::empty().insert(y));
                                                assert(Set::<usize>::empty().insert(y).contains(x));
                                                assert(x == y);
                                                let j = choose|j: int|
                                                    0 <= j < k && #[trigger] e.succ(cur)[j] < e.n() && e.escaping(
                                                        e.succ(cur)[j],
                                                        want_free,
                                                    );
                                                assert(Set::<usize>::empty().insert(y) == Set::<usize>::empty().insert(c));
                                                assert(Set::<usize>::empty().insert(y).contains(c));
                                            }
                                        }
                                        return None;
                                    }
                                },
                            }
                        },
                    }
                } else {
                    assert(esc@ =~= Set::empty()) by {
                        assert(esc@.len() == 0);
                    }
                }
            }
            k += 1;
        }
        proof {
            if let Some(c) = common {
                assert(e.all_escape_to(cur, want_free, c));
                let d = choose|d: usize| e.all_escape_to(cur, want_free, d);
                let j = choose|j: int| 0 <= j < e.succ(cur).len() && e.escaping(#[trigger] e.succ(cur)[j], want_free);
                assert(Set::<usize>::empty().insert(d) == Set::<usize>::empty().insert(c));
                assert(Set::<usize>::empty().insert(d).contains(c));
            }
        }
        common
    }

    fn has_default_at(&self, b: usize) -> (r: bool)
        ensures
            r == self.env().has_default(b),
    {
        if b < self.results.len() {
            match &self.results[b].term {
                Term::Switch { default, .. } => default.is_some(),
                _ => false,
            }
        } else {
            false
        }
    }

    /// Every way through the arm falls through or jumps to `f`.
    pub(crate) fn arm_binds_to(&self, r: &Region, f: usize) -> (b: bool)
        ensures
            b == self.env().binds(r.view(), f),
        decreases r,
    {
        match r {
            Region::Basic { .. } => true,
            Region::Goto { target } => *target == f,
            Region::Sequence(v) => {
                proof {
                    region::lemma_sequence_view(*v);
                }
                if v.len() == 0 {
                    return false;
                }
                let ghost t = region::trees(v@);
                assert(t[t.len() - 1] == v@[v@.len() - 1].view());
                proof {
                    assert(decreases_to!(v => v@));
                    assert(decreases_to!(v@ => v@[v@.len() - 1]));
                }
                self.arm_binds_to(&v[v.len() - 1], f)
            },
            Region::If { then_r, else_r, .. } => self.arm_binds_to(then_r, f) && self.arm_binds_to(else_r, f),
            Region::Loop { exits, .. } => {
                if exits.len() == 0 {
                    return false;
                }
                let mut i: usize = 0;
                while i < exits.len()
                    invariant
                        i <= exits@.len(),
                        forall|j: int| 0 <= j < i ==> #[trigger] exits@[j] == f,
                        r.view() matches Tree::Loop { exits: x, .. } && x == exits@,
                    decreases exits@.len() - i,
                {
                    if exits[i] != f {
                        assert(exits@[i as int] != f);
                        return false;
                    }
                    i += 1;
                }
                true
            },
            Region::Switch { block, cases, default, .. } => {
                proof {
                    region::lemma_switch_view(*r);
                }
                if !self.has_default_at(*block) {
                    return false;
                }
                let def_ok = match default {
                    Some(d) => self.arm_binds_to(d, f),
                    None => false,
                };
                if !def_ok {
                    return false;
                }
                let ghost cv = region::cases_view(cases@);
                let ghost rv = r.view();
                let mut k: usize = 0;
                while k < cases.len()
                    invariant
                        k <= cases@.len(),
                        cv == region::cases_view(cases@),
                        rv == r.view(),
                        rv is Switch,
                        rv->Switch_cases == cv,
                        r is Switch,
                        r->Switch_cases == cases,
                        self.env().has_default(rv->Switch_block),
                        rv->Switch_default matches Some(d) && self.env().binds(*d, f),
                        self.env().cases_bind(rv, f, k as nat),
                    decreases cases@.len() - k,
                {
                    let c = &cases[k];
                    assert(cv[k as int].1 == c.1.view());
                    proof {
                        assert(decreases_to!(cases => cases@));
                        assert(decreases_to!(cases@ => cases@[k as int]));
                        assert(decreases_to!(cases@[k as int] => cases@[k as int].1));
                    }
                    if !c.1.is_empty_region() && !self.arm_binds_to(&c.1, f) {
                        proof {
                            if self.env().cases_bind(rv, f, cv.len()) {
                                self.env().lemma_cases_bind(rv, f, (k + 1) as nat, cv.len());
                            }
                        }
                        return false;
                    }
                    k += 1;
                }
                true
            },
            _ => false,
        }
    }

    /// The switch region can take `f` as its follow.
    pub(crate) fn switch_follow_bindable(&self, r: &Region, f: usize) -> (b: bool)
        ensures
            b == self.env().bindable(r.view(), f),
    {
        match r {
            Region::Switch { .. } => self.arm_binds_to(r, f),
            _ => false,
        }
    }
}

impl Env {
    /// Fewer cases that bind are cases that bind.
    pub proof fn lemma_cases_bind(self, r: Tree, f: usize, j: nat, k: nat)
        requires
            r is Switch,
            j <= k <= r->Switch_cases.len(),
            self.cases_bind(r, f, k),
        ensures
            self.cases_bind(r, f, j),
        decreases k,
    {
        if j < k {
            self.lemma_cases_bind(r, f, j, (k - 1) as nat);
        }
    }

    /// What flow leaves a set for depends on the set's blocks only.
    pub proof fn lemma_escapes_local(self, a: Set<usize>, b: Set<usize>)
        requires
            self.cfg.wf(),
            forall|x: usize| x < self.n() ==> (#[trigger] a.contains(x) <==> b.contains(x)),
        ensures
            forall|t: usize| t < self.n() ==> #[trigger] self.escapes(t, a) == self.escapes(t, b),
    {
        let g = self.cfg.within(a);
        let h = self.cfg.within(b);
        assert forall|x: usize, y: usize| #[trigger] g.edge(x, y) == h.edge(x, y) by {
            if x < self.n() && g.adj[x as int].contains(y) {
                let k = g.adj[x as int].index_of(y);
                assert(self.cfg.blocks@[x as int].succ@[k] < self.n());
            }
        }
        g.lemma_same_edges(h);
        assert forall|t: usize| t < self.n() implies #[trigger] self.escapes(t, a) == self.escapes(t, b) by {
            if a.contains(t) {
                assert forall|s: usize| self.escapes(t, a).contains(s) == self.escapes(t, b).contains(s) by {
                    if exists|y: usize| g.reaches(t, y) && #[trigger] self.succ(y).contains(s) {
                        let y = choose|y: usize| g.reaches(t, y) && #[trigger] self.succ(y).contains(s);
                        self.cfg.lemma_flow_closed(a.complement());
                        self.cfg.lemma_flow_closed(b.complement());
                        g.lemma_reach_nodes(t, y);
                        let k = self.succ(y).index_of(s);
                        assert(self.cfg.blocks@[y as int].succ@[k] < self.n());
                        assert(h.reaches(t, y) && self.succ(y).contains(s));
                    } else {
                    }
                    if exists|y: usize| h.reaches(t, y) && #[trigger] self.succ(y).contains(s) {
                        let y = choose|y: usize| h.reaches(t, y) && #[trigger] self.succ(y).contains(s);
                        assert(g.reaches(t, y) && self.succ(y).contains(s));
                    }
                }
                assert(self.escapes(t, a) =~= self.escapes(t, b));
            }
        }
    }
}

} // verus!
