//! What the walk computes for a two-way branch and for a switch.

use vstd::prelude::*;

use crate::ir::Expr;
use crate::structure::cases;
use crate::structure::env::Env;
use crate::structure::model;
use crate::structure::model::{Branch, Cx, Frame, St, Ws};
use crate::structure::region;
use crate::structure::region::Tree;

verus! {

/// The parts without a copy of the block `t` at their end.
#[verifier::opaque]
pub open spec fn undoubled(u: Seq<Tree>, t: usize) -> Seq<Tree> {
    if u.len() > 0 && u.last() is CopyStmts && u.last()->CopyStmts_block == t {
        u.drop_last().push(Tree::Empty)
    } else {
        u
    }
}

impl Env {
    // -- where the branch goes on ---------------------------------------------------------

    /// The merge of the branch, unless it is a return or throw behind both sides.
    pub open spec fn branch_merge(self, f: Frame, cur: usize, taken: usize, fall: usize) -> Option<usize> {
        match self.merge(f.universe, cur) {
            Some(p) => if self.is_terminator(p) && p != taken && p != fall && !self.writes_final(p) {
                None
            } else {
                Some(p)
            },
            None => None,
        }
    }

    /// The merge where the walk can go on there, else the one boundary the branch runs to.
    pub open spec fn branch_follow(self, f: Frame, w: Ws, pd: Option<usize>, pre: bool) -> Option<usize> {
        if pre || (pd matches Some(p) && w.can_enter(f, p)) {
            pd
        } else {
            match self.appendix_target(w.cur, f.stop, w.st.claimed) {
                Some(m) => Some(m),
                None => pd,
            }
        }
    }

    /// The set with the follow added.
    pub open spec fn with_follow(self, stop: Set<usize>, follow: Option<usize>) -> Set<usize> {
        match follow {
            Some(x) => stop.insert(x),
            None => stop,
        }
    }

    /// The list with the block at its end, unless it is there.
    pub open spec fn with_candidate(self, v: Seq<usize>, c: Option<usize>) -> Seq<usize> {
        match c {
            Some(m) => if v.contains(m) {
                v
            } else {
                v.push(m)
            },
            None => v,
        }
    }

    /// The folded merges that the walk may jump to.
    pub open spec fn known_diamonds(self, f: Frame, cur: usize) -> Set<usize> {
        self.diamonds.filter(|b: usize| b != cur && f.universe.contains(b) && !f.stop.contains(b))
    }

    /// Where the branch could merge as a pure value.
    pub open spec fn diamond_merges(self, f: Frame, w: Ws, taken: usize, fall: usize, pd: Option<usize>) -> Seq<usize> {
        let v0 = self.ordered(self.known_diamonds(f, w.cur));
        let v1 = self.with_candidate(v0, self.branch_confluence(fall, taken, f.universe));
        let v2 = self.with_candidate(v1, self.push_end(taken, f.universe, f.stop, w.st.claimed, 10_000));
        self.with_candidate(v2, pd)
    }

    /// Both sides lead to `m` without statements; with the blocks passed.
    pub open spec fn diamond_to(self, f: Frame, w: Ws, taken: usize, fall: usize, bstop: Set<usize>, m: usize) -> Option<Set<usize>> {
        let (a, x) = self.diamond(taken, m, f.universe, bstop, w.st.claimed, Set::empty(), 0, 10_000);
        let (b, y) = self.diamond(fall, m, f.universe, bstop, w.st.claimed, Set::empty(), 0, 10_000);
        if m != w.cur && a && b {
            Some(x.union(y).remove(m))
        } else {
            None
        }
    }

    /// The first of the merges, from `k` on, that the branch is a diamond to.
    pub open spec fn first_diamond(
        self,
        f: Frame,
        w: Ws,
        taken: usize,
        fall: usize,
        bstop: Set<usize>,
        ms: Seq<usize>,
        k: nat,
    ) -> Option<(usize, Set<usize>)>
        decreases ms.len() - k,
    {
        if k >= ms.len() {
            None
        } else {
            match self.diamond_to(f, w, taken, fall, bstop, ms[k as int]) {
                Some(s) => Some((ms[k as int], s)),
                None => self.first_diamond(f, w, taken, fall, bstop, ms, k + 1),
            }
        }
    }

    /// The block behind the jump on the fall side, where the taken side comes there too.
    pub open spec fn stub_follow(self, cx: Cx, f: Frame, w: Ws, taken: usize, fall: usize) -> Option<usize> {
        let fh = self.succ(fall)[0];
        if self.quiet(fall) && self.term(fall) is Goto && self.succ(fall).len() == 1 && fh != w.cur && fh != taken
            && !self.group_starts(self.start(fh)) && !f.stop.contains(fh) && !w.st.claimed.contains(fh)
            && !self.is_terminator(fh) && !self.is_handler(fh) && !cx.loops.contains(fh) && self.reaches_exc(
            taken,
            fh,
            f.stop.union(cx.loops.to_set()).insert(fh).insert(w.cur).insert(fall).insert(taken),
        ) {
            Some(fh)
        } else {
            None
        }
    }

    // -- the sides ---------------------------------------------------------------------------

    /// A walk of one side.
    pub open spec fn walk_branch(self, cx: Cx, st: St, f: Frame, t: usize, bstop: Set<usize>) -> (Tree, St)
        decreases 256 - cx.depth, 1nat, 0nat, 0nat, Tree::Empty, 0nat, 0nat,
    {
        let scope = self.owner_scope(t, f.universe, st.structuring);
        let sub = self.restricted(self.sub_scope(t, scope, bstop, st.claimed), f.entry, cx.loops);
        self.walk(cx, st, t, sub, bstop, f.active, false)
    }

    /// The side can be walked from its first block.
    pub open spec fn enters(self, st: St, f: Frame, t: usize, bstop: Set<usize>) -> bool {
        f.universe.contains(t) && !bstop.contains(t) && !st.claimed.contains(t) && !(self.is_handler(t) && f.active.len()
            == 0)
    }

    /// A side that is the follow itself; only called where it is.
    pub open spec fn follow_side(self, cx: Cx, st: St, f: Frame, br: Branch, t: usize) -> Option<(Tree, St)>
        decreases 256 - cx.depth, 4nat, 0nat, 0nat, Tree::Empty, 0nat, 0nat,
    {
        if br.follow != Some(t) {
            None
        } else if !f.stop.contains(t) {
            Some((Tree::Empty, st))
        } else if !self.is_terminator(t) {
            Some(self.boundary_branch(cx, st, t, br.bstop, f.active, br.cur))
        } else if cx.in_other_loop(br.cur) {
            Some((model::jump(t), st))
        } else {
            None
        }
    }

    /// Both sides end the method at boundaries.
    pub open spec fn both_end(self, f: Frame, br: Branch) -> bool {
        self.is_terminator(br.taken) && f.stop.contains(br.taken) && self.is_terminator(br.fall) && f.stop.contains(br.fall)
    }

    /// One of two ends: a pending exception is rethrown by the enclosing construct.
    pub open spec fn end_side(self, cx: Cx, t: usize) -> Tree {
        if cx.loops.len() > 0 && self.pending_rethrow(t) {
            model::jump(t)
        } else {
            Tree::CopyStmts { block: t }
        }
    }

    pub open spec fn can_absorb(self, cx: Cx, st: St, f: Frame, br: Branch, t: usize) -> bool {
        self.absorbable(t, f.universe, br.bstop, st.claimed, f.active, st.structuring, cx.loops)
    }

    /// The taken side.
    pub open spec fn then_side(self, cx: Cx, st: St, f: Frame, br: Branch) -> (Tree, St)
        decreases 256 - cx.depth, 5nat, 0nat, 0nat, Tree::Empty, 0nat, 0nat,
    {
        let t = br.taken;
        match self.follow_side(cx, st, f, br, t) {
            Some(x) => x,
            None => if self.can_absorb(cx, st, f, br, t) {
                (self.absorbed(t, st.claimed), st.claim(t))
            } else if self.enters(st, f, t, br.bstop) || (!f.stop.contains(t) && !st.claimed.contains(t)
                && !self.is_terminator(t) && self.throws_out(t)) {
                self.walk_branch(cx, st, f, t, br.bstop)
            } else {
                self.then_rest(cx, st, f, br)
            },
        }
    }

    /// A taken side that cannot be walked.
    pub open spec fn then_rest(self, cx: Cx, st: St, f: Frame, br: Branch) -> (Tree, St)
        decreases 256 - cx.depth, 4nat, 0nat, 0nat, Tree::Empty, 0nat, 0nat,
    {
        let t = br.taken;
        if self.is_terminator(t) && !f.stop.contains(t) && !self.writes_final(t) {
            (Tree::CopyStmts { block: t }, st)
        } else if st.claimed.contains(t) {
            if !f.stop.contains(t) && !br.bstop.contains(t) && !cx.loops.contains(t) && !self.writes_final(t) {
                self.copy_or_jump(cx, st, t, br.bstop, f.active, br.cur)
            } else {
                (model::jump(t), st)
            }
        } else if f.stop.contains(t) && !self.is_terminator(t) {
            self.boundary_branch(cx, st, t, br.bstop, f.active, br.cur)
        } else if self.both_end(f, br) {
            (self.end_side(cx, t), st)
        } else if self.is_terminator(t) && f.stop.contains(t) && cx.loops.len() > 0 && !self.is_terminator(br.fall)
            && f.stop.contains(br.fall) && self.reaches(br.fall, t, 4096) {
            (model::jump(t), st)
        } else {
            (Tree::Empty, st)
        }
    }

    /// The fall side.
    pub open spec fn else_side(self, cx: Cx, st: St, f: Frame, br: Branch) -> (Tree, St)
        decreases 256 - cx.depth, 6nat, 0nat, 0nat, Tree::Empty, 0nat, 0nat,
    {
        let t = br.fall;
        match self.follow_side(cx, st, f, br, t) {
            Some(x) => x,
            None => if self.can_absorb(cx, st, f, br, t) {
                (self.absorbed(t, st.claimed), st.claim(t))
            } else if self.enters(st, f, t, br.bstop) {
                if self.parks(cx, st, f, br) {
                    self.parked(cx, st, f, br)
                } else {
                    self.walk_branch(cx, st, f, t, br.bstop)
                }
            } else {
                self.else_rest(cx, st, f, br)
            },
        }
    }

    /// A fall side that cannot be walked from its first block.
    pub open spec fn else_rest(self, cx: Cx, st: St, f: Frame, br: Branch) -> (Tree, St)
        decreases 256 - cx.depth, 4nat, 0nat, 0nat, Tree::Empty, 0nat, 0nat,
    {
        let t = br.fall;
        if self.is_terminator(t) && !f.stop.contains(t) && !self.writes_final(t) {
            (Tree::CopyStmts { block: t }, st)
        } else if st.claimed.contains(t) {
            if !f.stop.contains(t) && !br.bstop.contains(t) && !cx.loops.contains(t) && !self.writes_final(t)
                && !self.shared_tail(t) {
                self.copy_or_jump(cx, st, t, br.bstop, f.active, br.cur)
            } else {
                (model::jump(t), st)
            }
        } else if f.stop.contains(t) && !self.is_terminator(t) {
            self.boundary_branch(cx, st, t, br.bstop, f.active, br.cur)
        } else if self.both_end(f, br) {
            (self.end_side(cx, t), st)
        } else if !f.stop.contains(t) && self.throws_out(t) {
            self.walk_branch(cx, st, f, t, br.bstop)
        } else {
            (Tree::Empty, st)
        }
    }

    // -- a fall side that may run past the follow ---------------------------------------------

    /// The taken side is the follow, with statements of its own that the fall
    /// side may have to run past.
    pub open spec fn parks(self, cx: Cx, st: St, f: Frame, br: Branch) -> bool {
        let t = br.taken;
        br.follow == Some(t) && !f.stop.contains(t) && f.universe.contains(t) && !st.claimed.contains(t)
            && !self.is_terminator(t) && !self.quiet(t) && !cx.loops.contains(t) && !(self.is_handler(t) && f.active.len()
            == 0)
    }

    /// The jumps of the arm that are no way past the follow.
    pub open spec fn park_exempt(self, cx: Cx, br: Branch, arm: Tree) -> Set<usize> {
        arm.jump_targets().union(cx.loops.to_set()).union(cx.arm_follows()).union(br.bstop)
    }

    /// The blocks from `b` on that stand in line behind the follow.
    pub open spec fn park_chain(self, cx: Cx, st: St, br: Branch, arm: Tree, b: usize, chain: Set<usize>, fuel: nat) -> Set<usize>
        decreases fuel,
    {
        if fuel == 0 || chain.contains(b) || b == br.cur || (b != br.taken && br.bstop.contains(b)) || cx.loops.contains(b)
            || self.is_handler(b) || st.claimed.contains(b) || self.writes_final(b) || region::any_at(arm.parts(), b) || (
        self.quiet(b) && !self.term(b).plain()) {
            chain
        } else {
            match self.hop(b) {
                Some(y) => self.park_chain(cx, st, br, arm, y, chain.insert(b), (fuel - 1) as nat),
                None => chain.insert(b),
            }
        }
    }

    pub open spec fn parked(self, cx: Cx, st: St, f: Frame, br: Branch) -> (Tree, St)
        decreases 256 - cx.depth, 5nat, 0nat, 0nat, Tree::Empty, 0nat, 0nat,
    {
        let (arm, s) = self.walk_branch(cx, st, f, br.fall, br.bstop);
        let chain = if arm.bypasses_exempt(br.taken, self.park_exempt(cx, br, arm)) {
            self.park_chain(cx, s, br, arm, br.taken, Set::empty(), 64)
        } else {
            Set::empty()
        };
        if chain == Set::<usize>::empty() {
            (arm, s)
        } else {
            self.parked_tail(cx, s, f, br, arm, chain)
        }
    }

    /// The boundaries of the parked tail.
    #[verifier::opaque]
    pub open spec fn park_bars(self, cx: Cx, f: Frame, br: Branch) -> Set<usize> {
        br.bstop.union(f.stop).union(cx.loops.to_set())
    }

    /// The blocks that flow from the chain comes to.
    #[verifier::opaque]
    pub open spec fn park_scope(self, cx: Cx, f: Frame, br: Branch, chain: Set<usize>) -> Set<usize> {
        Set::new(
            |x: usize|
                exists|b: usize| #[trigger] chain.contains(b) && self.cfg.flow(self.park_bars(cx, f, br)).reaches(b, x),
        )
    }

    /// Flow from the block `t` comes to `c` without entering `stop` before.
    #[verifier::opaque]
    pub open spec fn passes(self, t: usize, c: usize, stop: Set<usize>) -> bool {
        t < self.n() && self.cfg.bypasses(t, c, stop)
    }

    /// Every jump at the ends of the arm comes to where the tail goes on.
    #[verifier::opaque]
    pub open spec fn coherent(self, arm: Tree, tail: Tree, stop: Set<usize>) -> bool {
        match tail.last_goto() {
            Some(c) => forall|i: int|
                0 <= i < arm.tail_targets().len() ==> {
                    let t = #[trigger] arm.tail_targets()[i];
                    t == c || self.passes(t, c, stop)
                },
            None => true,
        }
    }

    /// The scope with what the jumps at the ends of the arm reach.
    #[verifier::opaque]
    pub open spec fn widened(self, scope: Set<usize>, targets: Seq<usize>, stop: Set<usize>) -> Set<usize> {
        Set::new(
            |x: usize|
                scope.contains(x) || exists|i: int|
                    0 <= i < targets.len() && #[trigger] targets[i] < self.n() && (x == targets[i] || self.reach_within(
                        targets[i],
                        stop,
                    ).contains(x)),
        )
    }

    pub open spec fn parked_tail(self, cx: Cx, st: St, f: Frame, br: Branch, arm: Tree, chain: Set<usize>) -> (Tree, St)
        decreases 256 - cx.depth, 4nat, 0nat, 0nat, Tree::Empty, 0nat, 0nat,
    {
        let scope = self.park_scope(cx, f, br, chain);
        let stop = self.park_bars(cx, f, br).difference(chain);
        let (tail, s) = self.park_walk(cx, st, f, br.taken, scope, stop);
        if self.accepts(arm, tail, stop) {
            let (arm2, s2) = self.fill_arm(
                cx,
                s.with_claimed(s.claimed.union(st.claimed)),
                arm,
                tail,
                br.taken,
                scope,
                stop,
                f.active,
            );
            (Tree::Sequence(seq![arm2, tail]), s2)
        } else {
            (arm, St { claimed: st.claimed, tails: st.tails, structuring: st.structuring, ..s })
        }
    }

    /// A walk of the tail for one copy ticket.
    pub open spec fn park_walk(self, cx: Cx, st: St, f: Frame, t: usize, scope: Set<usize>, stop: Set<usize>) -> (Tree, St)
        decreases 256 - cx.depth, 1nat, 0nat, 0nat, Tree::Empty, 0nat, 0nat,
    {
        if st.budget == 0 {
            (Tree::Empty, st)
        } else {
            self.walk(cx, st.spent(), t, scope, stop, f.active, false)
        }
    }

    /// The tail can stand behind the arm.
    #[verifier::opaque]
    pub open spec fn accepts(self, arm: Tree, tail: Tree, stop: Set<usize>) -> bool {
        !(tail is Empty) && tail.simple() && self.coherent(arm, tail, stop)
    }

    /// The arm filled with copies of the tail: where it falls out inside, or at its ends.
    pub open spec fn fill_arm(
        self,
        cx: Cx,
        st: St,
        arm: Tree,
        tail: Tree,
        taken: usize,
        scope: Set<usize>,
        stop: Set<usize>,
        active: Seq<usize>,
    ) -> (Tree, St)
        decreases 256 - cx.depth, 3nat, 0nat, 0nat, Tree::Empty, 0nat, 0nat,
    {
        if tail.terminates(self.results, Seq::empty()) && arm.deep_empty(true) {
            self.skip_fill(cx, st, arm, tail, taken, scope, stop, active)
        } else {
            self.bypass_fill(
                cx,
                st,
                arm,
                tail,
                taken,
                self.widened(scope, arm.tail_targets(), stop),
                stop,
                active,
                true,
            )
        }
    }

    /// The arm with its jumps to the follow, and past it, filled with copies.
    pub open spec fn bypass_fill(
        self,
        cx: Cx,
        st: St,
        r: Tree,
        copy: Tree,
        taken: usize,
        scope: Set<usize>,
        stop: Set<usize>,
        active: Seq<usize>,
        top: bool,
    ) -> (Tree, St)
        decreases 256 - cx.depth, 2nat, 0nat, 0nat, r, 1nat, 0nat,
    {
        match r {
            Tree::Sequence(v) => {
                let (u, s) = self.bypass_parts(cx, st, r, copy, taken, scope, stop, active, top, v.len());
                (Tree::Sequence(u), s)
            },
            Tree::If { block, cond, then_r, else_r, follow, ternary } => {
                let (t, s1) = self.bypass_fill(cx, st, *then_r, copy, taken, scope, stop, active, false);
                let (e, s2) = self.bypass_fill(cx, s1, *else_r, copy, taken, scope, stop, active, false);
                (Tree::If { block, cond, then_r: Box::new(t), else_r: Box::new(e), follow, ternary }, s2)
            },
            Tree::Try { group_idx, body, catches } => {
                let (b, s1) = self.bypass_fill(cx, st, *body, copy, taken, scope, stop, active, false);
                let (cs, s2) = self.bypass_catches(cx, s1, r, copy, taken, scope, stop, active, catches.len());
                (Tree::Try { group_idx, body: Box::new(b), catches: cs }, s2)
            },
            _ => (r, st),
        }
    }

    /// The first `k` parts of a sequence.
    pub open spec fn bypass_parts(
        self,
        cx: Cx,
        st: St,
        r: Tree,
        copy: Tree,
        taken: usize,
        scope: Set<usize>,
        stop: Set<usize>,
        active: Seq<usize>,
        top: bool,
        k: nat,
    ) -> (Seq<Tree>, St)
        decreases 256 - cx.depth, 2nat, 0nat, 0nat, r, 0nat, k,
    {
        match r {
            Tree::Sequence(v) => if k == 0 || k > v.len() {
                (Seq::empty(), st)
            } else {
                let (u, s) = self.bypass_parts(cx, st, r, copy, taken, scope, stop, active, top, (k - 1) as nat);
                let x = v[k - 1];
                if k == v.len() && x is Goto {
                    self.bypass_last(cx, s, u, x->Goto_target, copy, taken, scope, stop, active, top)
                } else {
                    let (y, s2) = self.bypass_fill(cx, s, x, copy, taken, scope, stop, active, false);
                    (u.push(y), s2)
                }
            },
            _ => (Seq::empty(), st),
        }
    }

    /// The parts `u` of a sequence and the jump to `t` at its end.
    pub open spec fn bypass_last(
        self,
        cx: Cx,
        st: St,
        u: Seq<Tree>,
        t: usize,
        copy: Tree,
        taken: usize,
        scope: Set<usize>,
        stop: Set<usize>,
        active: Seq<usize>,
        top: bool,
    ) -> (Seq<Tree>, St)
        decreases 256 - cx.depth, 1nat, 1nat, 0nat, Tree::Empty, 0nat, 0nat,
    {
        if t == taken {
            if !top && st.budget > 0 {
                (u.push(copy), st.spent())
            } else {
                (u.push(model::jump(t)), st)
            }
        } else if self.passes(t, taken, stop) {
            let (sub, s) = self.ticket_walk(cx, st, t, scope, stop, active);
            if model::completes(self, sub) {
                (undoubled(u, t).push(sub), s)
            } else {
                (u.push(model::jump(t)), s)
            }
        } else {
            (u.push(model::jump(t)), st)
        }
    }

    /// The first `k` handlers of a try.
    pub open spec fn bypass_catches(
        self,
        cx: Cx,
        st: St,
        r: Tree,
        copy: Tree,
        taken: usize,
        scope: Set<usize>,
        stop: Set<usize>,
        active: Seq<usize>,
        k: nat,
    ) -> (Seq<(Seq<Seq<char>>, usize, Tree)>, St)
        decreases 256 - cx.depth, 2nat, 0nat, 0nat, r, 0nat, k,
    {
        match r {
            Tree::Try { catches, .. } => if k == 0 || k > catches.len() {
                (Seq::empty(), st)
            } else {
                let (u, s) = self.bypass_catches(cx, st, r, copy, taken, scope, stop, active, (k - 1) as nat);
                let c = catches[k - 1];
                let (y, s2) = self.bypass_fill(cx, s, c.2, copy, taken, scope, stop, active, false);
                (u.push((c.0, c.1, y)), s2)
            },
            _ => (Seq::empty(), st),
        }
    }

    /// What stands for a jump to `t`: the rest of the copy from there, or a walk.
    pub open spec fn suffix_for(
        self,
        cx: Cx,
        st: St,
        t: usize,
        copy: Tree,
        scope: Set<usize>,
        stop: Set<usize>,
        active: Seq<usize>,
    ) -> (Option<Tree>, St)
        decreases 256 - cx.depth, 1nat, 1nat, 0nat, Tree::Empty, 0nat, 0nat,
    {
        match model::suffix_at(copy, t, 0) {
            Some(x) => (Some(x), st),
            None => if t < self.n() {
                let (sub, s) = self.ticket_walk(cx, st, t, scope, stop, active);
                (if model::completes(self, sub) {
                    Some(sub)
                } else {
                    None
                }, s)
            } else {
                (None, st)
            },
        }
    }

    /// The arm with its empty sides and inner jumps filled with what comes behind them.
    pub open spec fn skip_fill(
        self,
        cx: Cx,
        st: St,
        r: Tree,
        copy: Tree,
        taken: usize,
        scope: Set<usize>,
        stop: Set<usize>,
        active: Seq<usize>,
    ) -> (Tree, St)
        decreases 256 - cx.depth, 2nat, 0nat, 0nat, r, 1nat, 0nat,
    {
        match r {
            Tree::Sequence(v) => {
                let (u, s) = self.skip_parts(cx, st, r, copy, taken, scope, stop, active, v.len());
                (Tree::Sequence(u), s)
            },
            Tree::Goto { target } => if target == taken {
                (r, st)
            } else {
                let (x, s) = self.suffix_for(cx, st, target, copy, scope, stop, active);
                (match x {
                    Some(y) => y,
                    None => r,
                }, s)
            },
            Tree::If { block, cond, then_r, else_r, follow, ternary } => if block < self.n() && self.succ(block).len()
                == 2 {
                let (t, s1) = if *then_r is Empty {
                    self.skip_empty(cx, st, self.succ(block)[1], copy, taken, scope, stop, active)
                } else {
                    self.skip_fill(cx, st, *then_r, copy, taken, scope, stop, active)
                };
                let (e, s2) = if *else_r is Empty {
                    self.skip_empty(cx, s1, self.succ(block)[0], copy, taken, scope, stop, active)
                } else {
                    self.skip_fill(cx, s1, *else_r, copy, taken, scope, stop, active)
                };
                (Tree::If { block, cond, then_r: Box::new(t), else_r: Box::new(e), follow, ternary }, s2)
            } else {
                (r, st)
            },
            Tree::Try { group_idx, body, catches } => {
                let (b, s1) = self.skip_fill(cx, st, *body, copy, taken, scope, stop, active);
                let (cs, s2) = self.skip_catches(cx, s1, r, copy, taken, scope, stop, active, catches.len());
                (Tree::Try { group_idx, body: Box::new(b), catches: cs }, s2)
            },
            _ => (r, st),
        }
    }

    /// An empty side that leads to `t`.
    pub open spec fn skip_empty(
        self,
        cx: Cx,
        st: St,
        t: usize,
        copy: Tree,
        taken: usize,
        scope: Set<usize>,
        stop: Set<usize>,
        active: Seq<usize>,
    ) -> (Tree, St)
        decreases 256 - cx.depth, 1nat, 2nat, 0nat, Tree::Empty, 0nat, 0nat,
    {
        if t == taken {
            (Tree::Empty, st)
        } else {
            let (x, s) = self.suffix_for(cx, st, t, copy, scope, stop, active);
            (match x {
                Some(y) => y,
                None => Tree::Empty,
            }, s)
        }
    }

    /// The first `k` parts of a sequence; a jump at its end stays.
    pub open spec fn skip_parts(
        self,
        cx: Cx,
        st: St,
        r: Tree,
        copy: Tree,
        taken: usize,
        scope: Set<usize>,
        stop: Set<usize>,
        active: Seq<usize>,
        k: nat,
    ) -> (Seq<Tree>, St)
        decreases 256 - cx.depth, 2nat, 0nat, 0nat, r, 0nat, k,
    {
        match r {
            Tree::Sequence(v) => if k == 0 || k > v.len() {
                (Seq::empty(), st)
            } else {
                let (u, s) = self.skip_parts(cx, st, r, copy, taken, scope, stop, active, (k - 1) as nat);
                if k == v.len() && v[k - 1] is Goto {
                    (u.push(v[k - 1]), s)
                } else {
                    let (y, s2) = self.skip_fill(cx, s, v[k - 1], copy, taken, scope, stop, active);
                    (u.push(y), s2)
                }
            },
            _ => (Seq::empty(), st),
        }
    }

    /// The first `k` handlers of a try.
    pub open spec fn skip_catches(
        self,
        cx: Cx,
        st: St,
        r: Tree,
        copy: Tree,
        taken: usize,
        scope: Set<usize>,
        stop: Set<usize>,
        active: Seq<usize>,
        k: nat,
    ) -> (Seq<(Seq<Seq<char>>, usize, Tree)>, St)
        decreases 256 - cx.depth, 2nat, 0nat, 0nat, r, 0nat, k,
    {
        match r {
            Tree::Try { catches, .. } => if k == 0 || k > catches.len() {
                (Seq::empty(), st)
            } else {
                let (u, s) = self.skip_catches(cx, st, r, copy, taken, scope, stop, active, (k - 1) as nat);
                let c = catches[k - 1];
                let (y, s2) = self.skip_fill(cx, s, c.2, copy, taken, scope, stop, active);
                (u.push((c.0, c.1, y)), s2)
            },
            _ => (Seq::empty(), st),
        }
    }

    // -- the branch -------------------------------------------------------------------------------

    /// The block only leaves the value that the follow merges.
    pub open spec fn pure_value(self, b: usize, follow: Option<usize>) -> bool {
        &&& b < self.n()
        &&& self.quiet(b)
        &&& self.results[b as int].out_stack@.len() == 1
        &&& self.term(b) is Fallthrough || (self.term(b) is Goto && self.succ(b).len() == 1 && follow == Some(
            self.succ(b)[0],
        ))
    }

    /// The one value block that the side is.
    pub open spec fn value_side(self, r: Tree, follow: Option<usize>) -> Option<usize> {
        match r {
            Tree::Basic { block } => if self.pure_value(block, follow) {
                Some(block)
            } else {
                None
            },
            Tree::Sequence(v) => if v.len() == 2 && v[0] is Basic && v[1] is Goto && follow == Some(v[1]->Goto_target)
                && self.pure_value(v[0]->Basic_block, follow) {
                Some(v[0]->Basic_block)
            } else {
                None
            },
            _ => None,
        }
    }

    /// The value blocks of a conditional expression.
    pub open spec fn value_sides(self, then_r: Tree, else_r: Tree, follow: Option<usize>) -> Option<(usize, usize)> {
        match (self.value_side(then_r, follow), self.value_side(else_r, follow)) {
            (Some(a), Some(b)) => if follow is Some {
                Some((a, b))
            } else {
                None
            },
            _ => None,
        }
    }

    /// The value that the block leaves.
    pub open spec fn value_of(self, b: usize) -> Expr {
        *self.results[b as int].out_stack@[0]
    }

    pub open spec fn cond_step(self, cx: Cx, f: Frame, w: Ws, cond: Expr, pre: bool) -> Ws
        decreases 256 - cx.depth, 6nat, 0nat, 4nat, Tree::Empty, 0nat, 0nat,
    {
        if self.succ(w.cur).len() != 2 {
            let w1 = w.push(Tree::Basic { block: w.cur });
            if self.succ(w.cur).len() > 0 && w.can_enter(f, self.succ(w.cur)[0]) {
                w1.go(self.succ(w.cur)[0])
            } else {
                w1.end()
            }
        } else {
            let fall = self.succ(w.cur)[0];
            let taken = self.succ(w.cur)[1];
            let pd = self.branch_merge(f, w.cur, taken, fall);
            let follow = self.branch_follow(f, w, pd, pre);
            let bstop = self.with_follow(f.stop, follow);
            match self.first_diamond(f, w, taken, fall, bstop, self.diamond_merges(f, w, taken, fall, pd), 0) {
                Some((m, s)) => self.with_stmts(w).with(w.st.with_claimed(w.st.claimed.union(s))).go(m),
                None => {
                    let fo = if follow is None {
                        self.stub_follow(cx, f, w, taken, fall)
                    } else {
                        follow
                    };
                    self.branch_step(
                        cx,
                        f,
                        w,
                        cond,
                        Branch { cur: w.cur, taken, fall, follow: fo, bstop: self.with_follow(f.stop, fo) },
                    )
                },
            }
        }
    }

    pub open spec fn branch_step(self, cx: Cx, f: Frame, w: Ws, cond: Expr, br: Branch) -> Ws
        decreases 256 - cx.depth, 6nat, 0nat, 3nat, Tree::Empty, 0nat, 0nat,
    {
        let (then_r, s1) = self.then_side(cx, w.st, f, br);
        let (else_r, s2) = self.else_side(cx, s1, f, br);
        let values = self.value_sides(then_r, else_r, br.follow);
        let s3 = match values {
            Some((a, b)) => s2.claim(a).claim(b),
            None => s2,
        };
        let r = Tree::If {
            block: w.cur,
            cond,
            then_r: Box::new(then_r),
            else_r: Box::new(else_r),
            follow: br.follow,
            ternary: match values {
                Some((a, b)) => Some((self.value_of(a), self.value_of(b))),
                None => None,
            },
        };
        self.after_branch(cx, f, w.with(s3).push(r), br.follow)
    }

    /// What comes behind the branch.
    pub open spec fn after_branch(self, cx: Cx, f: Frame, w: Ws, follow: Option<usize>) -> Ws
        decreases 256 - cx.depth, 1nat, 0nat, 0nat, Tree::Empty, 0nat, 0nat,
    {
        match follow {
            Some(x) => if w.can_enter(f, x) {
                w.go(x)
            } else if f.universe.contains(x) && !f.stop.contains(x) && !cx.loops.contains(x) && !self.reaches(
                x,
                w.cur,
                4096,
            ) {
                match self.tail_header(cx, x) {
                    Some(h) => w.push(Tree::Sequence(seq![Tree::CopyStmts { block: x }, model::jump(h)])).end(),
                    None => {
                        let (r, s) = self.walk(
                            cx,
                            w.st.with_claimed(Set::empty()),
                            x,
                            self.reach_within(x, f.stop.insert(w.cur)),
                            f.stop,
                            f.active,
                            true,
                        );
                        w.with(s.with_claimed(w.st.claimed).with_tail(x)).push(r).end()
                    },
                }
            } else {
                w.end()
            },
            None => w.end(),
        }
    }

    /// The loop header that the jump block `x` leads to.
    pub open spec fn tail_header(self, cx: Cx, x: usize) -> Option<usize> {
        if self.term(x) is Goto && self.succ(x).len() == 1 {
            self.stub_header(self.succ(x)[0], cx.loops)
        } else {
            None
        }
    }

    // -- a switch -----------------------------------------------------------------------------------

    /// Where the cases of the switch come together.
    pub open spec fn cases_follow(self, f: Frame, cur: usize) -> Option<usize> {
        match self.merge(f.universe, cur) {
            Some(x) => Some(x),
            None => match self.switch_follow(cur, f.universe) {
                Some(x) => Some(x),
                None => self.stop_confluence(cur, f.universe, f.stop),
            },
        }
    }

    /// A case or default arm.
    pub open spec fn arm_region(
        self,
        cx: Cx,
        st: St,
        block: usize,
        b: usize,
        scope: Set<usize>,
        universe: Set<usize>,
        stop: Set<usize>,
        follow: Option<usize>,
        active: Seq<usize>,
        pattern: bool,
    ) -> (Tree, St)
        decreases 256 - cx.depth, 3nat, 0nat, 0nat, Tree::Empty, 0nat, 0nat,
    {
        let cstop = self.case_stop(block, follow, stop).remove(b);
        if !universe.contains(b) || st.claimed.contains(b) {
            if !stop.contains(b) && !cx.loops.contains(b) {
                self.copy_or_jump(cx, st, b, cstop, active, block)
            } else {
                (model::jump(b), st)
            }
        } else {
            let (r, s) = self.walk(cx.in_arm(b, follow, pattern), st, b, scope, cstop, active, false);
            (self.bound_arm(r.without_fallthrough(self.arm_heads(block, follow)), follow), s)
        }
    }

    /// The first `k` cases.
    pub open spec fn case_regions(
        self,
        cx: Cx,
        st: St,
        block: usize,
        universe: Set<usize>,
        stop: Set<usize>,
        follow: Option<usize>,
        active: Seq<usize>,
        pattern: bool,
        k: nat,
    ) -> (Seq<(Seq<i64>, Tree)>, St)
        decreases 256 - cx.depth, 4nat, k, 0nat, Tree::Empty, 0nat, 0nat,
    {
        if k == 0 {
            (Seq::empty(), st)
        } else {
            let (v, s) = self.case_regions(cx, st, block, universe, stop, follow, active, pattern, (k - 1) as nat);
            let c = self.case_groups(block, follow)[k - 1];
            if c.is_follow {
                (v.push((c.vals, model::jump(c.target))), s)
            } else {
                let b = c.target;
                let scope = self.sub_scope(b, universe, self.case_stop(block, follow, stop).remove(b), s.claimed);
                let (r, s2) = self.arm_region(cx, s, block, b, scope, universe, stop, follow, active, pattern);
                (v.push((c.vals, r)), s2)
            }
        }
    }

    pub open spec fn switch_region(
        self,
        cx: Cx,
        st: St,
        block: usize,
        selector: Expr,
        universe: Set<usize>,
        stop: Set<usize>,
        follow: Option<usize>,
        active: Seq<usize>,
    ) -> (Tree, St)
        decreases 256 - cx.depth, 5nat, 0nat, 0nat, Tree::Empty, 0nat, 0nat,
    {
        let pattern = cases::is_pattern_selector(selector);
        let (v, s1) = self.case_regions(
            cx,
            st,
            block,
            universe,
            stop,
            follow,
            active,
            pattern,
            self.case_groups(block, follow).len(),
        );
        let (d, s2) = match self.default_block(block, follow) {
            Some(b) => {
                let scope = self.reach_within(b, self.case_stop(block, follow, stop).remove(b));
                let (r, s) = self.arm_region(cx, s1, block, b, scope, universe, stop, follow, active, pattern);
                (Some(Box::new(r)), s)
            },
            None => (None, s1),
        };
        (Tree::Switch { block, selector, cases: v, default: d, follow }, s2)
    }

    /// The switch may bind to a boundary: nothing comes behind it but `x`.
    pub open spec fn may_cross(self, cx: Cx, f: Frame, w: Ws, x: usize) -> bool {
        (w.parts.len() > 0 && w.parts.last().terminates(self.results, Seq::empty())) || (cx.arms.len() > 0
            && cx.arms.last() == (f.entry, Some(x), true))
    }

    /// The switch region; a follow at a boundary is bound only where all arms lead there.
    pub open spec fn bound_switch(self, cx: Cx, f: Frame, w: Ws, selector: Expr, follow: Option<usize>) -> (Tree, St)
        decreases 256 - cx.depth, 6nat, 0nat, 0nat, Tree::Empty, 0nat, 0nat,
    {
        let inner = cx.switching();
        match follow {
            Some(x) => if f.stop.contains(x) && cx.in_switch {
                let (r, s) = self.switch_region(inner, w.st, w.cur, selector, f.universe, f.stop, None, f.active);
                if self.may_cross(cx, f, w, x) && self.bindable(r, x) {
                    self.switch_region(
                        inner,
                        s.with_claimed(w.st.claimed),
                        w.cur,
                        selector,
                        f.universe,
                        f.stop,
                        follow,
                        f.active,
                    )
                } else {
                    (r, s)
                }
            } else {
                self.switch_region(inner, w.st, w.cur, selector, f.universe, f.stop, follow, f.active)
            },
            None => self.switch_region(inner, w.st, w.cur, selector, f.universe, f.stop, None, f.active),
        }
    }

    /// The follow is a claimed end that the switch falls out to: it is copied.
    pub open spec fn copies_end(self, cx: Cx, f: Frame, st: St, r: Tree, x: usize) -> bool {
        st.claimed.contains(x) && !f.stop.contains(x) && !cx.loops.contains(x) && self.is_terminator(x) && !self.retry_head(x)
            && !self.writes_final(x) && r.switch_completes(x, self.results)
    }

    pub open spec fn switch_step(self, cx: Cx, f: Frame, w: Ws, selector: Expr) -> Ws
        decreases 256 - cx.depth, 6nat, 0nat, 1nat, Tree::Empty, 0nat, 0nat,
    {
        let follow = self.cases_follow(f, w.cur);
        let (r, s) = self.bound_switch(cx, f, w, selector, follow);
        let w1 = w.with(s).push(r);
        match follow {
            Some(x) => if self.copies_end(cx, f, s, r, x) {
                w1.push(Tree::CopyStmts { block: x }).end()
            } else if w1.can_enter(f, x) {
                w1.go(x)
            } else {
                w1.end()
            },
            None => w1.end(),
        }
    }
}

} // verus!
