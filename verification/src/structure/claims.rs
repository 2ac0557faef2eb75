//! What a walk claims stays claimed.

use vstd::prelude::*;

use crate::ir::{Expr, Term};
use crate::structure::dominators;
use crate::structure::env::Env;
use crate::structure::heads::decided_by;
use crate::structure::model::{Branch, Cx, Frame, St, Ws};
use crate::structure::region;
use crate::structure::region::Tree;

verus! {

impl Env {
    /// Everything in `a` is in `b`, but for the merges of folded diamonds,
    /// which are handed back to the walk.
    pub open spec fn still(self, a: Set<usize>, b: Set<usize>) -> bool {
        forall|x: usize| #[trigger] a.contains(x) && !self.folds.dom().contains(x) ==> b.contains(x)
    }

    // -- filling an arm claims nothing ---------------------------------------------------

    proof fn lemma_bypass_last_claims(
        self,
        cx: Cx,
        st: St,
        u: Seq<Tree>,
        t: usize,
        copy: Tree,
        taken: usize,
        scope: Set<usize>,
        stop: Set<usize>,
        active: Seq<usize>,
        top: bool,
    )
        ensures
            self.bypass_last(cx, st, u, t, copy, taken, scope, stop, active, top).1.claimed == st.claimed,
    {
    }

    proof fn lemma_bypass_claims(
        self,
        cx: Cx,
        st: St,
        r: Tree,
        copy: Tree,
        taken: usize,
        scope: Set<usize>,
        stop: Set<usize>,
        active: Seq<usize>,
        top: bool,
    )
        ensures
            self.bypass_fill(cx, st, r, copy, taken, scope, stop, active, top).1.claimed == st.claimed,
        decreases r, 1nat, 0nat,
    {
        match r {
            Tree::Sequence(v) => {
                self.lemma_bypass_parts_claims(cx, st, r, copy, taken, scope, stop, active, top, v.len());
            },
            Tree::If { then_r, else_r, .. } => {
                self.lemma_bypass_claims(cx, st, *then_r, copy, taken, scope, stop, active, false);
                let s1 = self.bypass_fill(cx, st, *then_r, copy, taken, scope, stop, active, false).1;
                self.lemma_bypass_claims(cx, s1, *else_r, copy, taken, scope, stop, active, false);
            },
            Tree::Try { body, catches, .. } => {
                self.lemma_bypass_claims(cx, st, *body, copy, taken, scope, stop, active, false);
                let s1 = self.bypass_fill(cx, st, *body, copy, taken, scope, stop, active, false).1;
                self.lemma_bypass_catches_claims(cx, s1, r, copy, taken, scope, stop, active, catches.len());
            },
            _ => {},
        }
    }

    proof fn lemma_bypass_parts_claims(
        self,
        cx: Cx,
        st: St,
        r: Tree,
        copy: Tree,
        taken: usize,
        scope: Set<usize>,
        stop: Set<usize>,
        active: Seq<usize>,
        top: bool,
        k: nat,
    )
        ensures
            self.bypass_parts(cx, st, r, copy, taken, scope, stop, active, top, k).1.claimed == st.claimed,
        decreases r, 0nat, k,
    {
        if let Tree::Sequence(v) = r {
            if 0 < k <= v.len() {
                self.lemma_bypass_parts_claims(cx, st, r, copy, taken, scope, stop, active, top, (k - 1) as nat);
                let (u, s) = self.bypass_parts(cx, st, r, copy, taken, scope, stop, active, top, (k - 1) as nat);
                let x = v[k - 1];
                if k == v.len() && x is Goto {
                    self.lemma_bypass_last_claims(cx, s, u, x->Goto_target, copy, taken, scope, stop, active, top);
                } else {
                    assert(decreases_to!(r => v));
                    assert(decreases_to!(v => v[k - 1]));
                    self.lemma_bypass_claims(cx, s, x, copy, taken, scope, stop, active, false);
                }
            }
        }
    }

    proof fn lemma_bypass_catches_claims(
        self,
        cx: Cx,
        st: St,
        r: Tree,
        copy: Tree,
        taken: usize,
        scope: Set<usize>,
        stop: Set<usize>,
        active: Seq<usize>,
        k: nat,
    )
        ensures
            self.bypass_catches(cx, st, r, copy, taken, scope, stop, active, k).1.claimed == st.claimed,
        decreases r, 0nat, k,
    {
        if let Tree::Try { catches, .. } = r {
            if 0 < k <= catches.len() {
                self.lemma_bypass_catches_claims(cx, st, r, copy, taken, scope, stop, active, (k - 1) as nat);
                let s = self.bypass_catches(cx, st, r, copy, taken, scope, stop, active, (k - 1) as nat).1;
                assert(decreases_to!(r => catches));
                assert(decreases_to!(catches => catches[k - 1]));
                assert(decreases_to!(catches[k - 1] => catches[k - 1].2));
                self.lemma_bypass_claims(cx, s, catches[k - 1].2, copy, taken, scope, stop, active, false);
            }
        }
    }

    proof fn lemma_suffix_claims(self, cx: Cx, st: St, t: usize, copy: Tree, scope: Set<usize>, stop: Set<usize>, active: Seq<usize>)
        ensures
            self.suffix_for(cx, st, t, copy, scope, stop, active).1.claimed == st.claimed,
    {
    }

    proof fn lemma_skip_empty_claims(
        self,
        cx: Cx,
        st: St,
        t: usize,
        copy: Tree,
        taken: usize,
        scope: Set<usize>,
        stop: Set<usize>,
        active: Seq<usize>,
    )
        ensures
            self.skip_empty(cx, st, t, copy, taken, scope, stop, active).1.claimed == st.claimed,
    {
        self.lemma_suffix_claims(cx, st, t, copy, scope, stop, active);
    }

    proof fn lemma_skip_claims(
        self,
        cx: Cx,
        st: St,
        r: Tree,
        copy: Tree,
        taken: usize,
        scope: Set<usize>,
        stop: Set<usize>,
        active: Seq<usize>,
    )
        ensures
            self.skip_fill(cx, st, r, copy, taken, scope, stop, active).1.claimed == st.claimed,
        decreases r, 1nat, 0nat,
    {
        match r {
            Tree::Sequence(v) => {
                self.lemma_skip_parts_claims(cx, st, r, copy, taken, scope, stop, active, v.len());
            },
            Tree::Goto { target } => {
                self.lemma_suffix_claims(cx, st, target, copy, scope, stop, active);
            },
            Tree::If { block, then_r, else_r, .. } => {
                self.lemma_skip_empty_claims(cx, st, self.succ(block)[1], copy, taken, scope, stop, active);
                self.lemma_skip_claims(cx, st, *then_r, copy, taken, scope, stop, active);
                let s1 = if *then_r is Empty {
                    self.skip_empty(cx, st, self.succ(block)[1], copy, taken, scope, stop, active).1
                } else {
                    self.skip_fill(cx, st, *then_r, copy, taken, scope, stop, active).1
                };
                self.lemma_skip_empty_claims(cx, s1, self.succ(block)[0], copy, taken, scope, stop, active);
                self.lemma_skip_claims(cx, s1, *else_r, copy, taken, scope, stop, active);
            },
            Tree::Try { body, catches, .. } => {
                self.lemma_skip_claims(cx, st, *body, copy, taken, scope, stop, active);
                let s1 = self.skip_fill(cx, st, *body, copy, taken, scope, stop, active).1;
                self.lemma_skip_catches_claims(cx, s1, r, copy, taken, scope, stop, active, catches.len());
            },
            _ => {},
        }
    }

    proof fn lemma_skip_parts_claims(
        self,
        cx: Cx,
        st: St,
        r: Tree,
        copy: Tree,
        taken: usize,
        scope: Set<usize>,
        stop: Set<usize>,
        active: Seq<usize>,
        k: nat,
    )
        ensures
            self.skip_parts(cx, st, r, copy, taken, scope, stop, active, k).1.claimed == st.claimed,
        decreases r, 0nat, k,
    {
        if let Tree::Sequence(v) = r {
            if 0 < k <= v.len() {
                self.lemma_skip_parts_claims(cx, st, r, copy, taken, scope, stop, active, (k - 1) as nat);
                let s = self.skip_parts(cx, st, r, copy, taken, scope, stop, active, (k - 1) as nat).1;
                assert(decreases_to!(r => v));
                assert(decreases_to!(v => v[k - 1]));
                self.lemma_skip_claims(cx, s, v[k - 1], copy, taken, scope, stop, active);
            }
        }
    }

    proof fn lemma_skip_catches_claims(
        self,
        cx: Cx,
        st: St,
        r: Tree,
        copy: Tree,
        taken: usize,
        scope: Set<usize>,
        stop: Set<usize>,
        active: Seq<usize>,
        k: nat,
    )
        ensures
            self.skip_catches(cx, st, r, copy, taken, scope, stop, active, k).1.claimed == st.claimed,
        decreases r, 0nat, k,
    {
        if let Tree::Try { catches, .. } = r {
            if 0 < k <= catches.len() {
                self.lemma_skip_catches_claims(cx, st, r, copy, taken, scope, stop, active, (k - 1) as nat);
                let s = self.skip_catches(cx, st, r, copy, taken, scope, stop, active, (k - 1) as nat).1;
                assert(decreases_to!(r => catches));
                assert(decreases_to!(catches => catches[k - 1]));
                assert(decreases_to!(catches[k - 1] => catches[k - 1].2));
                self.lemma_skip_claims(cx, s, catches[k - 1].2, copy, taken, scope, stop, active);
            }
        }
    }

    proof fn lemma_fill_claims(
        self,
        cx: Cx,
        st: St,
        arm: Tree,
        tail: Tree,
        taken: usize,
        scope: Set<usize>,
        stop: Set<usize>,
        active: Seq<usize>,
    )
        ensures
            self.fill_arm(cx, st, arm, tail, taken, scope, stop, active).1.claimed == st.claimed,
    {
        self.lemma_skip_claims(cx, st, arm, tail, taken, scope, stop, active);
        let wide = self.widened(scope, arm.tail_targets(), stop);
        self.lemma_bypass_claims(cx, st, arm, tail, taken, wide, stop, active, true);
    }

    proof fn lemma_boundary_claims(self, cx: Cx, st: St, t: usize, bstop: Set<usize>, active: Seq<usize>, cur: usize)
        ensures
            self.copy_or_jump(cx, st, t, bstop, active, cur).1.claimed == st.claimed,
            self.boundary_branch(cx, st, t, bstop, active, cur).1.claimed == st.claimed,
    {
    }

    // -- the sides of a branch -------------------------------------------------------------

    proof fn lemma_walk_branch_still(self, cx: Cx, st: St, f: Frame, t: usize, bstop: Set<usize>)
        ensures
            self.still(st.claimed, self.walk_branch(cx, st, f, t, bstop).1.claimed),
        decreases 256 - cx.depth, 1nat, 0nat, 0nat,
    {
        let scope = self.owner_scope(t, f.universe, st.structuring);
        let sub = self.restricted(self.sub_scope(t, scope, bstop, st.claimed), f.entry, cx.loops);
        self.law_walk_keeps_claims(cx, st, t, sub, bstop, f.active, false);
    }

    proof fn lemma_then_still(self, cx: Cx, st: St, f: Frame, br: Branch)
        ensures
            self.still(st.claimed, self.then_side(cx, st, f, br).1.claimed),
        decreases 256 - cx.depth, 5nat, 0nat, 0nat,
    {
        let t = br.taken;
        self.lemma_boundary_claims(cx, st, t, br.bstop, f.active, br.cur);
        self.lemma_walk_branch_still(cx, st, f, t, br.bstop);
        assert(self.then_rest(cx, st, f, br).1.claimed == st.claimed);
    }

    proof fn lemma_else_still(self, cx: Cx, st: St, f: Frame, br: Branch)
        ensures
            self.still(st.claimed, self.else_side(cx, st, f, br).1.claimed),
        decreases 256 - cx.depth, 6nat, 0nat, 0nat,
    {
        let t = br.fall;
        self.lemma_boundary_claims(cx, st, t, br.bstop, f.active, br.cur);
        self.lemma_walk_branch_still(cx, st, f, t, br.bstop);
        self.lemma_parked_still(cx, st, f, br);
        assert(self.still(st.claimed, self.else_rest(cx, st, f, br).1.claimed));
    }

    proof fn lemma_parked_still(self, cx: Cx, st: St, f: Frame, br: Branch)
        ensures
            self.still(st.claimed, self.parked(cx, st, f, br).1.claimed),
        decreases 256 - cx.depth, 5nat, 0nat, 0nat,
    {
        self.lemma_walk_branch_still(cx, st, f, br.fall, br.bstop);
        let (arm, s) = self.walk_branch(cx, st, f, br.fall, br.bstop);
        let chain = if arm.bypasses_exempt(br.taken, self.park_exempt(cx, br, arm)) {
            self.park_chain(cx, s, br, arm, br.taken, Set::empty(), 64)
        } else {
            Set::empty()
        };
        self.lemma_parked_tail_still(cx, s, f, br, arm, chain);
    }

    proof fn lemma_parked_tail_still(self, cx: Cx, st: St, f: Frame, br: Branch, arm: Tree, chain: Set<usize>)
        ensures
            self.still(st.claimed, self.parked_tail(cx, st, f, br, arm, chain).1.claimed),
    {
        let scope = self.park_scope(cx, f, br, chain);
        let stop = self.park_bars(cx, f, br).difference(chain);
        let (tail, s) = self.park_walk(cx, st, f, br.taken, scope, stop);
        self.lemma_fill_claims(
            cx,
            s.with_claimed(s.claimed.union(st.claimed)),
            arm,
            tail,
            br.taken,
            scope,
            stop,
            f.active,
        );
    }

    proof fn lemma_after_branch_claims(self, cx: Cx, f: Frame, w: Ws, follow: Option<usize>)
        ensures
            self.after_branch(cx, f, w, follow).st.claimed == w.st.claimed,
    {
    }

    proof fn lemma_branch_still(self, cx: Cx, f: Frame, w: Ws, cond: Expr, br: Branch)
        ensures
            self.still(w.st.claimed, self.branch_step(cx, f, w, cond, br).st.claimed),
        decreases 256 - cx.depth, 6nat, 0nat, 3nat,
    {
        self.lemma_then_still(cx, w.st, f, br);
        let (then_r, s1) = self.then_side(cx, w.st, f, br);
        self.lemma_else_still(cx, s1, f, br);
        let (else_r, s2) = self.else_side(cx, s1, f, br);
        let values = self.value_sides(then_r, else_r, br.follow);
        let s3 = match values {
            Some((a, b)) => s2.claim(a).claim(b),
            None => s2,
        };
        let r = Tree::If {
            block: w.cur,
            cond,
            then_r: Box::new(then_r),
            else_r: Box::new(else_r),
            follow: br.follow,
            ternary: match values {
                Some((a, b)) => Some((self.value_of(a), self.value_of(b))),
                None => None,
            },
        };
        self.lemma_after_branch_claims(cx, f, w.with(s3).push(r), br.follow);
        assert(self.branch_step(cx, f, w, cond, br) == self.after_branch(cx, f, w.with(s3).push(r), br.follow));
    }

    proof fn lemma_cond_still(self, cx: Cx, f: Frame, w: Ws, cond: Expr, pre: bool)
        ensures
            self.still(w.st.claimed, self.cond_step(cx, f, w, cond, pre).st.claimed),
        decreases 256 - cx.depth, 6nat, 0nat, 4nat,
    {
        if self.succ(w.cur).len() == 2 {
            let fall = self.succ(w.cur)[0];
            let taken = self.succ(w.cur)[1];
            let pd = self.branch_merge(f, w.cur, taken, fall);
            let follow = self.branch_follow(f, w, pd, pre);
            let bstop = self.with_follow(f.stop, follow);
            match self.first_diamond(f, w, taken, fall, bstop, self.diamond_merges(f, w, taken, fall, pd), 0) {
                Some(_) => {},
                None => {
                    let fo = if follow is None {
                        self.stub_follow(cx, f, w, taken, fall)
                    } else {
                        follow
                    };
                    let br = Branch { cur: w.cur, taken, fall, follow: fo, bstop: self.with_follow(f.stop, fo) };
                    self.lemma_branch_still(cx, f, w, cond, br);
                },
            }
        }
    }

    // -- switches ------------------------------------------------------------------------------

    proof fn lemma_arm_still(
        self,
        cx: Cx,
        st: St,
        block: usize,
        b: usize,
        scope: Set<usize>,
        universe: Set<usize>,
        stop: Set<usize>,
        follow: Option<usize>,
        active: Seq<usize>,
        pattern: bool,
    )
        ensures
            self.still(st.claimed, self.arm_region(cx, st, block, b, scope, universe, stop, follow, active, pattern).1.claimed),
        decreases 256 - cx.depth, 3nat, 0nat, 0nat,
    {
        let cstop = self.case_stop(block, follow, stop).remove(b);
        self.lemma_boundary_claims(cx, st, b, cstop, active, block);
        self.law_walk_keeps_claims(cx.in_arm(b, follow, pattern), st, b, scope, cstop, active, false);
    }

    proof fn lemma_cases_still(
        self,
        cx: Cx,
        st: St,
        block: usize,
        universe: Set<usize>,
        stop: Set<usize>,
        follow: Option<usize>,
        active: Seq<usize>,
        pattern: bool,
        k: nat,
    )
        ensures
            self.still(st.claimed, self.case_regions(cx, st, block, universe, stop, follow, active, pattern, k).1.claimed),
        decreases 256 - cx.depth, 4nat, k, 0nat,
    {
        if k > 0 {
            self.lemma_cases_still(cx, st, block, universe, stop, follow, active, pattern, (k - 1) as nat);
            let s = self.case_regions(cx, st, block, universe, stop, follow, active, pattern, (k - 1) as nat).1;
            let c = self.case_groups(block, follow)[k - 1];
            if !c.is_follow {
                let b = c.target;
                let scope = self.sub_scope(b, universe, self.case_stop(block, follow, stop).remove(b), s.claimed);
                self.lemma_arm_still(cx, s, block, b, scope, universe, stop, follow, active, pattern);
            }
        }
    }

    proof fn lemma_switch_still(
        self,
        cx: Cx,
        st: St,
        block: usize,
        selector: Expr,
        universe: Set<usize>,
        stop: Set<usize>,
        follow: Option<usize>,
        active: Seq<usize>,
    )
        ensures
            self.still(st.claimed, self.switch_region(cx, st, block, selector, universe, stop, follow, active).1.claimed),
        decreases 256 - cx.depth, 5nat, 0nat, 0nat,
    {
        let pattern = crate::structure::cases::is_pattern_selector(selector);
        let n = self.case_groups(block, follow).len();
        self.lemma_cases_still(cx, st, block, universe, stop, follow, active, pattern, n);
        let s1 = self.case_regions(cx, st, block, universe, stop, follow, active, pattern, n).1;
        match self.default_block(block, follow) {
            Some(b) => {
                let scope = self.reach_within(b, self.case_stop(block, follow, stop).remove(b));
                self.lemma_arm_still(cx, s1, block, b, scope, universe, stop, follow, active, pattern);
            },
            None => {},
        }
    }

    proof fn lemma_bound_switch_still(self, cx: Cx, f: Frame, w: Ws, selector: Expr, follow: Option<usize>)
        ensures
            self.still(w.st.claimed, self.bound_switch(cx, f, w, selector, follow).1.claimed),
        decreases 256 - cx.depth, 6nat, 0nat, 0nat,
    {
        let inner = cx.switching();
        self.lemma_switch_still(inner, w.st, w.cur, selector, f.universe, f.stop, None, f.active);
        self.lemma_switch_still(inner, w.st, w.cur, selector, f.universe, f.stop, follow, f.active);
        let s = self.switch_region(inner, w.st, w.cur, selector, f.universe, f.stop, None, f.active).1;
        self.lemma_switch_still(
            inner,
            s.with_claimed(w.st.claimed),
            w.cur,
            selector,
            f.universe,
            f.stop,
            follow,
            f.active,
        );
    }

    // -- one step --------------------------------------------------------------------------------

    proof fn lemma_term_still(self, cx: Cx, f: Frame, w: Ws)
        ensures
            self.still(w.st.claimed.insert(w.cur), self.term_step(cx, f, w).st.claimed),
        decreases 256 - cx.depth, 6nat, 1nat, 0nat,
    {
        let pre = self.at_claimed_entry(f, w);
        let w1 = w.with(w.st.claim(w.cur));
        let d = decided_by(self.term(w.cur));
        match self.term(w.cur) {
            Term::Cond { .. } => {
                self.lemma_cond_still(cx, f, w1, d, pre);
            },
            Term::Switch { .. } => {
                self.lemma_bound_switch_still(cx, f, w1, d, self.cases_follow(f, w.cur));
                let s = self.bound_switch(cx, f, w1, d, self.cases_follow(f, w.cur)).1;
                assert(self.switch_step(cx, f, w1, d).st.claimed == s.claimed);
            },
            Term::Goto => {
                assert(self.goto_step(cx, f, w1).st.claimed == w1.st.claimed);
            },
            Term::Fallthrough => {
                assert(self.fall_step(cx, f, w1).st.claimed == w1.st.claimed);
            },
            _ => {},
        }
    }

    proof fn lemma_loop_still(self, cx: Cx, f: Frame, w: Ws)
        ensures
            self.still(w.st.claimed.insert(w.cur), self.loop_step(cx, f, w).st.claimed),
        decreases 256 - cx.depth, 6nat, 1nat, 0nat,
    {
        let members = self.loop_members(w.cur, f.universe, f.stop, f.idom, cx.loops);
        let inner_stop = f.stop.intersect(members).union(self.exit_set(members));
        self.law_walk_keeps_claims(
            cx.in_loop(w.cur),
            w.st.counted().claim(w.cur),
            w.cur,
            members,
            inner_stop,
            f.active,
            true,
        );
        let (r, s) = self.loop_region(cx, w.st, f, w.cur);
        assert(self.still(w.st.claimed.insert(w.cur), s.claimed));
        assert(self.leave_loop(cx, f, w.with(s).push(r), r).st.claimed == s.claimed);
        assert(self.loop_step(cx, f, w).st.claimed == s.claimed);
    }

    proof fn lemma_catches_still(self, cx: Cx, st: St, gi: usize, universe: Set<usize>, goes_on: bool, k: nat)
        ensures
            self.still(st.claimed, self.catches(cx, st, gi, universe, goes_on, k).1.claimed),
        decreases 256 - cx.depth, 2nat, k, 0nat,
    {
        if k > 0 {
            self.lemma_catches_still(cx, st, gi, universe, goes_on, (k - 1) as nat);
            let s = self.catches(cx, st, gi, universe, goes_on, (k - 1) as nat).1;
            self.lemma_catch_still(cx, s, gi, self.merged_handlers(gi)[k - 1].1, universe, goes_on);
        }
    }

    proof fn lemma_catch_still(self, cx: Cx, st: St, gi: usize, hb: usize, universe: Set<usize>, goes_on: bool)
        ensures
            self.still(st.claimed, self.catch_region(cx, st, gi, hb, universe, goes_on).1.claimed),
        decreases 256 - cx.depth, 1nat, 0nat, 0nat,
    {
        let hu = self.handler_scope(gi, hb, universe, st.claimed, goes_on, cx.loops);
        self.law_walk_keeps_claims(cx, st, hb, hu, Set::empty(), self.handler_active(gi, hu, self.groups.len()), false);
    }

    proof fn lemma_try_still(self, cx: Cx, st: St, gi: usize, universe: Set<usize>, stop: Set<usize>)
        ensures
            self.still(st.claimed, self.try_region(cx, st, gi, universe, stop).1.claimed),
        decreases 256 - cx.depth, 3nat, 0nat, 0nat,
    {
        let st1 = St { structuring: st.structuring.push(gi), ..st };
        let body = self.try_body(gi, universe, cx.loops);
        match self.cfg.at(self.groups[gi as int].start) {
            Some(entry) => {
                self.law_walk_keeps_claims(
                    cx,
                    st1,
                    entry,
                    body,
                    Set::empty(),
                    self.nested(gi),
                    st1.claimed.contains(entry),
                );
            },
            None => {},
        }
        let (b, goes_on, st2) = self.try_body_region(cx, st1, gi, universe, stop);
        assert(self.still(st.claimed, st2.claimed));
        self.lemma_catches_still(cx, st2, gi, universe, goes_on, self.merged_handlers(gi).len());
    }

    proof fn lemma_still_more(self, a: Set<usize>, x: usize, b: Set<usize>)
        requires
            self.still(a.insert(x), b),
        ensures
            self.still(a, b),
    {
        assert forall|y: usize| #[trigger] a.contains(y) && !self.folds.dom().contains(y) implies b.contains(y) by {
            assert(a.insert(x).contains(y));
        }
    }

    proof fn lemma_step_still(self, cx: Cx, f: Frame, w: Ws)
        ensures
            self.still(w.st.claimed, self.step(cx, f, w).st.claimed),
        decreases 256 - cx.depth, 7nat, 0nat, 0nat,
    {
        let w1 = Ws { first: false, ..w };
        if w.st.claimed.contains(w.cur) && !(w.first && f.allow) {
            assert(self.arrive(cx, f, w).st.claimed == w.st.claimed);
        } else if !w.first && self.is_handler(w.cur) && f.active.len() == 0 {
        } else if self.cfg.len(w.cur) != 0 {
            match self.group_here(w.cur, f.universe, f.active, w.st.structuring, f.pre, f.idom, f.entry, cx.loops) {
                Some(gi) => {
                    self.lemma_try_still(cx, w.st, gi, f.universe, f.stop);
                },
                None => if !self.at_claimed_entry(f, w1) && (self.is_loop_header(
                    w.cur,
                    f.universe,
                    f.idom,
                    f.entry,
                    cx.loops,
                ) || self.retry.contains(w.cur)) {
                    self.lemma_loop_still(cx, f, w1);
                    self.lemma_still_more(w.st.claimed, w.cur, self.loop_step(cx, f, w1).st.claimed);
                } else if self.roots.dom().contains(w.cur) && self.folds.dom().contains(self.roots[w.cur]) {
                } else {
                    self.lemma_term_still(cx, f, w1);
                    self.lemma_still_more(w.st.claimed, w.cur, self.term_step(cx, f, w1).st.claimed);
                },
            }
        }
    }

    proof fn lemma_run_still(self, cx: Cx, f: Frame, w: Ws, fuel: nat)
        ensures
            self.still(w.st.claimed, self.run(cx, f, w, fuel).st.claimed),
        decreases 256 - cx.depth, 8nat, fuel, 0nat,
    {
        if !(fuel == 0 || w.done || f.stop.contains(w.cur) || !f.universe.contains(w.cur)) {
            self.lemma_step_still(cx, f, w);
            self.lemma_run_still(cx, f, self.step(cx, f, w), (fuel - 1) as nat);
        }
    }

    /// What was claimed before a walk is claimed behind it. Only the merge of
    /// a folded diamond is handed back.
    pub proof fn law_walk_keeps_claims(
        self,
        cx: Cx,
        st: St,
        entry: usize,
        universe: Set<usize>,
        stop: Set<usize>,
        active: Seq<usize>,
        allow: bool,
    )
        ensures
            self.still(st.claimed, self.walk(cx, st, entry, universe, stop, active, allow).1.claimed),
        decreases 256 - cx.depth, 0nat, 0nat, 0nat,
    {
        if cx.depth < 256 && st.visits > 0 && universe.contains(entry) {
            let c = cx.deeper();
            let f = Frame {
                entry,
                universe,
                stop,
                active,
                allow,
                pre: st.visited().claimed.contains(entry),
                idom: dominators::dom_of(self.cfg, universe, entry),
            };
            let w = self.at_start(f, st.visited().counted());
            self.lemma_run_still(c, f, w, 100_000);
            let end = self.run(c, f, w, 100_000);
            assert(self.walk(cx, st, entry, universe, stop, active, allow) == (region::joined(end.parts), end.st));
        }
    }

    // -- a walk claims its first block -----------------------------------------------------------

    /// The block the walk starts from is claimed behind it, if it has code,
    /// opens no try group and is no merge of a folded diamond.
    pub proof fn law_walk_claims_entry(
        self,
        cx: Cx,
        st: St,
        entry: usize,
        universe: Set<usize>,
        stop: Set<usize>,
        active: Seq<usize>,
        allow: bool,
    )
        requires
            self.can_start(cx, st, entry, universe, stop, allow),
            self.cfg.len(entry) != 0,
            self.opening_group(entry, active, st.structuring) is None,
            !self.folds.dom().contains(entry),
        ensures
            self.walk(cx, st, entry, universe, stop, active, allow).1.claimed.contains(entry),
    {
        let c = cx.deeper();
        let f = Frame {
            entry,
            universe,
            stop,
            active,
            allow,
            pre: st.visited().claimed.contains(entry),
            idom: dominators::dom_of(self.cfg, universe, entry),
        };
        let w = self.at_start(f, st.visited().counted());
        let w0 = Ws { first: false, ..w };
        let w1 = self.step(c, f, w);
        assert(w1 == self.block_step(c, f, w0));
        if !self.at_claimed_entry(f, w0) && (self.is_loop_header(entry, universe, f.idom, entry, c.loops) || self.retry.contains(
            entry,
        )) {
            self.lemma_loop_still(c, f, w0);
            assert(w0.st.claimed.insert(entry).contains(entry));
        } else if self.roots.dom().contains(entry) && self.folds.dom().contains(self.roots[entry]) {
        } else {
            self.lemma_term_still(c, f, w0);
            assert(w0.st.claimed.insert(entry).contains(entry));
        }
        assert(w1.st.claimed.contains(entry));
        assert(self.run(c, f, w, 100_000) == self.run(c, f, w1, 99_999));
        self.lemma_run_still(c, f, w1, 99_999);
        let end = self.run(c, f, w, 100_000);
        assert(self.walk(cx, st, entry, universe, stop, active, allow) == (region::joined(end.parts), end.st));
    }

    /// Once a try is structured, the blocks of its handlers are claimed: each
    /// that has code, and was claimed before or could still be walked.
    pub proof fn law_handlers_claimed(self, cx: Cx, st: St, gi: usize, universe: Set<usize>, stop: Set<usize>, k: nat)
        requires
            cx.depth < 256,
            k < self.merged_handlers(gi).len(),
            self.cfg.len(self.merged_handlers(gi)[k as int].1) != 0,
            !self.folds.dom().contains(self.merged_handlers(gi)[k as int].1),
            self.before_handler(cx, st, gi, universe, stop, k).visits > 0,
        ensures
            self.try_region(cx, st, gi, universe, stop).1.claimed.contains(self.merged_handlers(gi)[k as int].1),
    {
        let st1 = St { structuring: st.structuring.push(gi), ..st };
        let (body, goes_on, st2) = self.try_body_region(cx, st1, gi, universe, stop);
        let s = self.catches(cx, st2, gi, universe, goes_on, k).1;
        let hb = self.merged_handlers(gi)[k as int].1;
        self.law_merged_handlers(gi);
        assert(self.handles(self.merged_handlers(gi)[k as int].1, gi));
        let s2 = self.catches(cx, st2, gi, universe, goes_on, k + 1).1;
        assert(s2 == self.catch_region(cx, s, gi, hb, universe, goes_on).1);
        if s.claimed.contains(hb) {
            self.lemma_catch_still(cx, s, gi, hb, universe, goes_on);
        } else {
            let hu = self.handler_scope(gi, hb, universe, s.claimed, goes_on, cx.loops);
            self.law_walk_claims_entry(
                cx,
                s,
                hb,
                hu,
                Set::empty(),
                self.handler_active(gi, hu, self.groups.len()),
                false,
            );
        }
        assert(s2.claimed.contains(hb));
        self.lemma_later_catches_still(cx, st2, gi, universe, goes_on, k + 1, self.merged_handlers(gi).len());
    }

    proof fn lemma_later_catches_still(self, cx: Cx, st: St, gi: usize, universe: Set<usize>, goes_on: bool, j: nat, k: nat)
        requires
            j <= k,
        ensures
            self.still(
                self.catches(cx, st, gi, universe, goes_on, j).1.claimed,
                self.catches(cx, st, gi, universe, goes_on, k).1.claimed,
            ),
        decreases k,
    {
        if j < k {
            self.lemma_later_catches_still(cx, st, gi, universe, goes_on, j, (k - 1) as nat);
            let s = self.catches(cx, st, gi, universe, goes_on, (k - 1) as nat).1;
            self.lemma_catch_still(cx, s, gi, self.merged_handlers(gi)[k - 1].1, universe, goes_on);
        }
    }
}

} // verus!
