//! The walk at a two-way branch and at a switch.

use std::collections::HashSet;
use std::sync::Arc;

use vstd::prelude::*;

use crate::ir;
use crate::ir::{Expr, Term};
use crate::sets::{copy_set, extend_seq, extend_set, list_has, minus};
use crate::structure::branch;
use crate::structure::cases;
use crate::structure::cases::has_pattern_selector;
use crate::structure::env::Env;
use crate::structure::graph::{bypass_flows_to, flood, reachable_within};
use crate::structure::model;
use crate::structure::model::{Branch, St};
use crate::structure::region;
use crate::structure::region::{pair, Region, Tree};
use crate::structure::state;
use crate::structure::state::{WalkCx, WalkFrame, WalkState, Work};
use crate::structure::structurer::Structurer;
use crate::structure::walk;

verus! {

broadcast use vstd::std_specs::hash::group_hash_axioms;

/// A two-way branch being structured.
pub struct WalkBranch {
    pub cur: usize,
    pub taken: usize,
    pub fall: usize,
    pub follow: Option<usize>,
    pub bstop: HashSet<usize>,
}

impl View for WalkBranch {
    type V = Branch;

    open spec fn view(&self) -> Branch {
        Branch { cur: self.cur, taken: self.taken, fall: self.fall, follow: self.follow, bstop: self.bstop@ }
    }
}

impl<'a> Structurer<'a> {
    pub open spec fn branch_ok(self, br: WalkBranch) -> bool {
        br.cur < self.env().n() && br.taken < self.env().n() && br.fall < self.env().n()
    }

    // -- where the branch goes on ---------------------------------------------------------

    fn merge_of_branch(&self, f: &WalkFrame, cur: usize, taken: usize, fall: usize) -> (r: Option<usize>)
        requires
            self.wf(),
            self.frame_ok(*f),
            cur < self.env().n(),
        ensures
            r == self.env().branch_merge(f@, cur, taken, fall),
            r matches Some(x) ==> x < self.env().n(),
    {
        match self.postdom_ipdom(f.universe, cur) {
            Some(p) => if self.is_terminator_block(p) && p != taken && p != fall && !self.does_write_final(p) {
                None
            } else {
                Some(p)
            },
            None => None,
        }
    }

    fn follow_of_branch(&self, f: &WalkFrame, w: &Work, st: &WalkState, pd: Option<usize>, pre: bool) -> (r: Option<usize>)
        requires
            self.wf(),
            w.cur < self.env().n(),
            pd matches Some(x) ==> x < self.env().n(),
        ensures
            r == self.env().branch_follow(f@, state::ws(*w, *st), pd, pre),
            r matches Some(x) ==> x < self.env().n(),
    {
        if pre {
            return pd;
        }
        if let Some(p) = pd {
            if w.can_enter(f, st, p) {
                return pd;
            }
        }
        match self.appendix_target(w.cur, f.stop, &st.claimed) {
            Some(m) => Some(m),
            None => pd,
        }
    }

    fn set_with_follow(&self, stop: &HashSet<usize>, follow: Option<usize>) -> (r: HashSet<usize>)
        ensures
            r@ == self.env().with_follow(stop@, follow),
    {
        let mut r = copy_set(stop);
        if let Some(x) = follow {
            r.insert(x);
        }
        assert(r@ =~= self.env().with_follow(stop@, follow));
        r
    }

    fn add_candidate(&self, v: Vec<usize>, c: Option<usize>) -> (r: Vec<usize>)
        requires
            forall|i: int| 0 <= i < v@.len() ==> #[trigger] v@[i] < self.env().n(),
            c matches Some(x) ==> x < self.env().n(),
        ensures
            r@ == self.env().with_candidate(v@, c),
            forall|i: int| 0 <= i < r@.len() ==> #[trigger] r@[i] < self.env().n(),
    {
        let mut v = v;
        if let Some(m) = c {
            if !list_has(&v, m) {
                v.push(m);
            }
        }
        v
    }

    fn merges_for_diamond(&self, f: &WalkFrame, w: &Work, st: &WalkState, taken: usize, fall: usize, pd: Option<usize>) -> (r: Vec<usize>)
        requires
            self.wf(),
            self.frame_ok(*f),
            taken < self.env().n(),
            fall < self.env().n(),
            pd matches Some(x) ==> x < self.env().n(),
        ensures
            r@ == self.env().diamond_merges(f@, state::ws(*w, *st), taken, fall, pd),
            forall|i: int| 0 <= i < r@.len() ==> #[trigger] r@[i] < self.env().n(),
    {
        let ghost e = self.env();
        let cur = w.cur;
        let mut known: HashSet<usize> = HashSet::new();
        let mut b: usize = 0;
        while b < self.cfg.blocks.len()
            invariant
                e == self.env(),
                b <= e.n(),
                forall|x: usize| #[trigger] known@.contains(x) <==> x < b && e.known_diamonds(f@, cur).contains(x),
            decreases e.n() - b,
        {
            if self.diamond_merges.contains(&b) && b != cur && f.universe.contains(&b) && !f.stop.contains(&b) {
                known.insert(b);
            }
            b += 1;
        }
        assert(known@ =~= e.known_diamonds(f@, cur));
        let v = self.in_order(&known);
        let v = self.add_candidate(v, self.branch_meet(fall, taken, f.universe));
        let v = self.add_candidate(v, self.pure_chain_end(taken, f.universe, f.stop, &st.claimed));
        self.add_candidate(v, pd)
    }

    #[verifier::loop_isolation(false)]
    fn find_diamond(
        &self,
        f: &WalkFrame,
        w: &Work,
        st: &WalkState,
        taken: usize,
        fall: usize,
        bstop: &HashSet<usize>,
        ms: &Vec<usize>,
    ) -> (r: Option<(usize, HashSet<usize>)>)
        requires
            self.wf(),
            taken < self.env().n(),
            fall < self.env().n(),
            forall|i: int| 0 <= i < ms@.len() ==> #[trigger] ms@[i] < self.env().n(),
        ensures
            ({
                let x = self.env().first_diamond(f@, state::ws(*w, *st), taken, fall, bstop@, ms@, 0);
                r is Some == x is Some && (r matches Some(p) ==> p.0 == (x->0).0 && p.1@ == (x->0).1 && p.0 < self.env().n())
            }),
    {
        let ghost e = self.env();
        let ghost wv = state::ws(*w, *st);
        let mut k: usize = 0;
        while k < ms.len()
            invariant
                k <= ms@.len(),
                e.first_diamond(f@, wv, taken, fall, bstop@, ms@, k as nat) == e.first_diamond(
                    f@,
                    wv,
                    taken,
                    fall,
                    bstop@,
                    ms@,
                    0,
                ),
            decreases ms@.len() - k,
        {
            let m = ms[k];
            let mut a: HashSet<usize> = HashSet::new();
            let mut b: HashSet<usize> = HashSet::new();
            assert(a@ =~= Set::empty());
            assert(b@ =~= Set::empty());
            if m != w.cur && self.diamond_side(taken, m, f.universe, bstop, &st.claimed, &mut a, 0) && self.diamond_side(
                fall,
                m,
                f.universe,
                bstop,
                &st.claimed,
                &mut b,
                0,
            ) {
                let ghost av = a@;
                extend_set(&mut a, &b);
                a.remove(&m);
                assert(a@ =~= av.union(b@).remove(m));
                return Some((m, a));
            }
            k += 1;
        }
        None
    }

    fn follow_of_stub(&self, cx: &WalkCx, f: &WalkFrame, w: &Work, st: &WalkState, taken: usize, fall: usize) -> (r: Option<usize>)
        requires
            self.wf(),
            taken < self.env().n(),
            fall < self.env().n(),
        ensures
            r == self.env().stub_follow(cx@, f@, state::ws(*w, *st), taken, fall),
            r matches Some(x) ==> x < self.env().n(),
    {
        let cur = w.cur;
        if !self.is_quiet(fall) || !self.ends_goto(fall) || self.succ_of(fall).len() != 1 {
            return None;
        }
        let fh = self.succ_of(fall)[0];
        if fh == cur || fh == taken || self.does_group_start(self.cfg.blocks[fh].start) || f.stop.contains(&fh)
            || st.claimed.contains(&fh) || self.is_terminator_block(fh) || self.is_handler_block(fh) || list_has(
            &cx.loops,
            fh,
        ) {
            return None;
        }
        let mut bars = copy_set(f.stop);
        extend_seq(&mut bars, &cx.loops);
        bars.insert(fh);
        bars.insert(cur);
        bars.insert(fall);
        bars.insert(taken);
        assert(bars@ =~= f.stop@.union(cx@.loops.to_set()).insert(fh).insert(cur).insert(fall).insert(taken));
        if self.does_reach_exc(taken, fh, &bars) {
            Some(fh)
        } else {
            None
        }
    }

    // -- the sides ---------------------------------------------------------------------------

    fn walk_branch(&self, cx: &WalkCx, st: &mut WalkState, f: &WalkFrame, t: usize, bstop: &HashSet<usize>) -> (r: Region)
        requires
            self.wf(),
            self.frame_ok(*f),
            t < self.env().n(),
            self.groups_ok(old(st).structuring@),
        ensures
            final(st).cuts@ == old(st).cuts@ ==> (r.view(), final(st)@) == self.env().walk_branch(cx@, old(st)@, f@, t, bstop@),
            walk::kept(*self, *old(st), *final(st)),
            self.valid(r.view()),
        decreases 256 - cx.depth, 1nat, 0nat, 0nat, Tree::Empty, 0nat, 0nat,
    {
        let scope = self.owner_scope(t, f.universe, &st.structuring);
        let sub = self.branch_scope(t, &scope, bstop, &st.claimed);
        let sub = self.restrict_handler_branch(sub, f.entry, &cx.loops);
        self.walk(cx, st, t, &sub, bstop, f.active, false)
    }

    fn does_enter(&self, st: &WalkState, f: &WalkFrame, t: usize, bstop: &HashSet<usize>) -> (r: bool)
        ensures
            r == self.env().enters(st@, f@, t, bstop@),
    {
        f.universe.contains(&t) && !bstop.contains(&t) && !st.claimed.contains(&t) && !(self.is_handler_block(t)
            && f.active.len() == 0)
    }

    fn follow_side(&self, cx: &WalkCx, st: &mut WalkState, f: &WalkFrame, br: &WalkBranch, t: usize) -> (r: Option<Region>)
        requires
            self.wf(),
            self.frame_ok(*f),
            t < self.env().n(),
            self.groups_ok(old(st).structuring@),
        ensures
            final(st).cuts@ == old(st).cuts@ ==> ({
                let x = self.env().follow_side(cx@, old(st)@, f@, br@, t);
                r is Some == x is Some && (r matches Some(y) ==> (y.view(), final(st)@) == x->0)
            }),
            r is None ==> final(st)@ == old(st)@,
            walk::kept(*self, *old(st), *final(st)),
            r matches Some(x) ==> self.valid(x.view()),
        decreases 256 - cx.depth, 4nat, 0nat, 0nat, Tree::Empty, 0nat, 0nat,
    {
        if br.follow != Some(t) {
            return None;
        }
        if !f.stop.contains(&t) {
            return Some(Region::Empty);
        }
        if !self.is_terminator_block(t) {
            return Some(self.boundary_branch(cx, st, t, &br.bstop, f.active, br.cur));
        }
        if cx.is_in_other_loop(br.cur) {
            return Some(Region::Goto { target: t });
        }
        None
    }

    fn do_both_end(&self, f: &WalkFrame, br: &WalkBranch) -> (r: bool)
        ensures
            r == self.env().both_end(f@, br@),
    {
        self.is_terminator_block(br.taken) && f.stop.contains(&br.taken) && self.is_terminator_block(br.fall)
            && f.stop.contains(&br.fall)
    }

    /// A pending exception stays with the construct that rethrows it.
    fn end_side(&self, cx: &WalkCx, t: usize) -> (r: Region)
        requires
            self.wf(),
            t < self.env().n(),
        ensures
            r.view() == self.env().end_side(cx@, t),
    {
        if cx.loops.len() > 0 && self.is_pending_rethrow(t) {
            Region::Goto { target: t }
        } else {
            Region::CopyStmts { block: t }
        }
    }

    fn then_side(&self, cx: &WalkCx, st: &mut WalkState, f: &WalkFrame, br: &WalkBranch) -> (r: Region)
        requires
            self.wf(),
            self.frame_ok(*f),
            self.branch_ok(*br),
            self.groups_ok(old(st).structuring@),
        ensures
            final(st).cuts@ == old(st).cuts@ ==> (r.view(), final(st)@) == self.env().then_side(cx@, old(st)@, f@, br@),
            walk::kept(*self, *old(st), *final(st)),
            self.valid(r.view()),
        decreases 256 - cx.depth, 5nat, 0nat, 0nat, Tree::Empty, 0nat, 0nat,
    {
        let t = br.taken;
        if let Some(r) = self.follow_side(cx, st, f, br, t) {
            return r;
        }
        if let Some(r) = self.absorb_pure(
            t,
            f.universe,
            &br.bstop,
            &mut st.claimed,
            f.active,
            &st.structuring,
            &cx.loops,
        ) {
            return r;
        }
        if self.does_enter(st, f, t, &br.bstop) || (!f.stop.contains(&t) && !st.claimed.contains(&t)
            && !self.is_terminator_block(t) && self.does_throw_out(t)) {
            return self.walk_branch(cx, st, f, t, &br.bstop);
        }
        self.then_rest(cx, st, f, br)
    }

    fn then_rest(&self, cx: &WalkCx, st: &mut WalkState, f: &WalkFrame, br: &WalkBranch) -> (r: Region)
        requires
            self.wf(),
            self.frame_ok(*f),
            self.branch_ok(*br),
            self.groups_ok(old(st).structuring@),
        ensures
            final(st).cuts@ == old(st).cuts@ ==> (r.view(), final(st)@) == self.env().then_rest(cx@, old(st)@, f@, br@),
            walk::kept(*self, *old(st), *final(st)),
            self.valid(r.view()),
        decreases 256 - cx.depth, 4nat, 0nat, 0nat, Tree::Empty, 0nat, 0nat,
    {
        let t = br.taken;
        if self.is_terminator_block(t) && !f.stop.contains(&t) && !self.does_write_final(t) {
            return Region::CopyStmts { block: t };
        }
        if st.claimed.contains(&t) {
            if !f.stop.contains(&t) && !br.bstop.contains(&t) && !list_has(&cx.loops, t) && !self.does_write_final(t) {
                return self.copy_or_jump(cx, st, t, &br.bstop, f.active, br.cur);
            }
            return Region::Goto { target: t };
        }
        if f.stop.contains(&t) && !self.is_terminator_block(t) {
            return self.boundary_branch(cx, st, t, &br.bstop, f.active, br.cur);
        }
        if self.do_both_end(f, br) {
            return self.end_side(cx, t);
        }
        if self.is_terminator_block(t) && f.stop.contains(&t) && cx.loops.len() > 0 && !self.is_terminator_block(br.fall)
            && f.stop.contains(&br.fall) && self.does_reach(br.fall, t, 4096) {
            return Region::Goto { target: t };
        }
        Region::Empty
    }

    fn else_side(&self, cx: &WalkCx, st: &mut WalkState, f: &WalkFrame, br: &WalkBranch) -> (r: Region)
        requires
            self.wf(),
            self.frame_ok(*f),
            self.branch_ok(*br),
            self.groups_ok(old(st).structuring@),
        ensures
            final(st).cuts@ == old(st).cuts@ ==> (r.view(), final(st)@) == self.env().else_side(cx@, old(st)@, f@, br@),
            walk::kept(*self, *old(st), *final(st)),
            self.valid(r.view()),
        decreases 256 - cx.depth, 6nat, 0nat, 0nat, Tree::Empty, 0nat, 0nat,
    {
        let t = br.fall;
        if let Some(r) = self.follow_side(cx, st, f, br, t) {
            return r;
        }
        if let Some(r) = self.absorb_pure(
            t,
            f.universe,
            &br.bstop,
            &mut st.claimed,
            f.active,
            &st.structuring,
            &cx.loops,
        ) {
            return r;
        }
        if self.does_enter(st, f, t, &br.bstop) {
            if self.does_park(cx, st, f, br) {
                return self.parked(cx, st, f, br);
            }
            return self.walk_branch(cx, st, f, t, &br.bstop);
        }
        self.else_rest(cx, st, f, br)
    }

    fn else_rest(&self, cx: &WalkCx, st: &mut WalkState, f: &WalkFrame, br: &WalkBranch) -> (r: Region)
        requires
            self.wf(),
            self.frame_ok(*f),
            self.branch_ok(*br),
            self.groups_ok(old(st).structuring@),
        ensures
            final(st).cuts@ == old(st).cuts@ ==> (r.view(), final(st)@) == self.env().else_rest(cx@, old(st)@, f@, br@),
            walk::kept(*self, *old(st), *final(st)),
            self.valid(r.view()),
        decreases 256 - cx.depth, 4nat, 0nat, 0nat, Tree::Empty, 0nat, 0nat,
    {
        let t = br.fall;
        if self.is_terminator_block(t) && !f.stop.contains(&t) && !self.does_write_final(t) {
            return Region::CopyStmts { block: t };
        }
        if st.claimed.contains(&t) {
            if !f.stop.contains(&t) && !br.bstop.contains(&t) && !list_has(&cx.loops, t) && !self.does_write_final(t)
                && !self.shared_tail_confluence(t) {
                return self.copy_or_jump(cx, st, t, &br.bstop, f.active, br.cur);
            }
            return Region::Goto { target: t };
        }
        if f.stop.contains(&t) && !self.is_terminator_block(t) {
            return self.boundary_branch(cx, st, t, &br.bstop, f.active, br.cur);
        }
        if self.do_both_end(f, br) {
            return self.end_side(cx, t);
        }
        if !f.stop.contains(&t) && self.does_throw_out(t) {
            return self.walk_branch(cx, st, f, t, &br.bstop);
        }
        Region::Empty
    }

    // -- a fall side that may run past the follow ---------------------------------------------

    fn does_park(&self, cx: &WalkCx, st: &WalkState, f: &WalkFrame, br: &WalkBranch) -> (r: bool)
        requires
            self.wf(),
            self.branch_ok(*br),
        ensures
            r == self.env().parks(cx@, st@, f@, br@),
    {
        let t = br.taken;
        br.follow == Some(t) && !f.stop.contains(&t) && f.universe.contains(&t) && !st.claimed.contains(&t)
            && !self.is_terminator_block(t) && !self.is_quiet(t) && !list_has(&cx.loops, t) && !(self.is_handler_block(t)
            && f.active.len() == 0)
    }

    fn chain_behind(&self, cx: &WalkCx, st: &WalkState, br: &WalkBranch, arm: &Region, b: usize, chain: HashSet<usize>, fuel: usize) -> (r: HashSet<
        usize,
    >)
        requires
            self.wf(),
            b < self.env().n(),
            self.ids_ok(chain@),
        ensures
            r@ == self.env().park_chain(cx@, st@, br@, arm.view(), b, chain@, fuel as nat),
            self.ids_ok(r@),
        decreases fuel,
    {
        if fuel == 0 || chain.contains(&b) || b == br.cur || (b != br.taken && br.bstop.contains(&b)) || list_has(
            &cx.loops,
            b,
        ) || self.is_handler_block(b) || st.claimed.contains(&b) || self.does_write_final(b) || arm.has_part_at(b) || (
        self.is_quiet(b) && !self.ends_plain(b)) {
            return chain;
        }
        let mut chain = chain;
        chain.insert(b);
        match self.hop_of(b) {
            Some(y) => self.chain_behind(cx, st, br, arm, y, chain, fuel - 1),
            None => chain,
        }
    }

    fn parked(&self, cx: &WalkCx, st: &mut WalkState, f: &WalkFrame, br: &WalkBranch) -> (r: Region)
        requires
            self.wf(),
            self.frame_ok(*f),
            self.branch_ok(*br),
            self.groups_ok(old(st).structuring@),
        ensures
            final(st).cuts@ == old(st).cuts@ ==> (r.view(), final(st)@) == self.env().parked(cx@, old(st)@, f@, br@),
            walk::kept(*self, *old(st), *final(st)),
            self.valid(r.view()),
        decreases 256 - cx.depth, 5nat, 0nat, 0nat, Tree::Empty, 0nat, 0nat,
    {
        let ghost e = self.env();
        let arm = self.walk_branch(cx, st, f, br.fall, &br.bstop);
        let mut exempt: HashSet<usize> = HashSet::new();
        arm.jump_targets(&mut exempt);
        extend_seq(&mut exempt, &cx.loops);
        let follows = cx.follows_of_arms();
        extend_set(&mut exempt, &follows);
        extend_set(&mut exempt, &br.bstop);
        assert(exempt@ =~= e.park_exempt(cx@, br@, arm.view()));
        let mut chain: HashSet<usize> = HashSet::new();
        assert(chain@ =~= Set::empty());
        if arm.bypasses_exempt(br.taken, &exempt) {
            chain = self.chain_behind(cx, st, br, &arm, br.taken, chain, 64);
        }
        if chain.is_empty() {
            assert(chain@ =~= Set::empty()) by {
                assert(chain@.len() == 0);
            }
            return arm;
        }
        assert(chain@ != Set::<usize>::empty());
        self.parked_tail(cx, st, f, br, arm, &chain)
    }

    fn bars_of_park(&self, cx: &WalkCx, f: &WalkFrame, br: &WalkBranch) -> (r: HashSet<usize>)
        ensures
            r@ == self.env().park_bars(cx@, f@, br@),
    {
        reveal(Env::park_bars);
        let mut r = copy_set(&br.bstop);
        extend_set(&mut r, f.stop);
        extend_seq(&mut r, &cx.loops);
        assert(r@ =~= self.env().park_bars(cx@, f@, br@));
        r
    }

    #[verifier::loop_isolation(false)]
    fn scope_of_park(&self, cx: &WalkCx, f: &WalkFrame, br: &WalkBranch, chain: &HashSet<usize>, bars: &HashSet<usize>) -> (r: HashSet<usize>)
        requires
            self.wf(),
            self.ids_ok(chain@),
            bars@ == self.env().park_bars(cx@, f@, br@),
        ensures
            r@ == self.env().park_scope(cx@, f@, br@, chain@),
            self.ids_ok(r@),
    {
        reveal(Env::park_scope);
        let ghost e = self.env();
        let ghost g = e.cfg.flow(bars@);
        let mut r: HashSet<usize> = HashSet::new();
        let mut b: usize = 0;
        while b < self.cfg.blocks.len()
            invariant
                b <= e.n(),
                self.ids_ok(r@),
                forall|x: usize|
                    #[trigger] r@.contains(x) <==> exists|y: usize| y < b && #[trigger] chain@.contains(y) && g.reaches(y, x),
            decreases e.n() - b,
        {
            let ghost r0 = r@;
            if chain.contains(&b) {
                let more = flood(self.cfg, b, bars);
                extend_set(&mut r, &more);
            }
            assert forall|x: usize|
                #[trigger] r@.contains(x) <==> exists|y: usize| y < b + 1 && #[trigger] chain@.contains(y) && g.reaches(y, x) by {
                if r0.contains(x) {
                    let y = choose|y: usize| y < b && #[trigger] chain@.contains(y) && g.reaches(y, x);
                    assert(y < b + 1 && chain@.contains(y) && g.reaches(y, x));
                }
                if exists|y: usize| y < b + 1 && #[trigger] chain@.contains(y) && g.reaches(y, x) {
                    let y = choose|y: usize| y < b + 1 && #[trigger] chain@.contains(y) && g.reaches(y, x);
                    if y < b {
                        assert(r0.contains(x));
                    }
                }
            }
            b += 1;
        }
        assert forall|x: usize| r@.contains(x) == e.park_scope(cx@, f@, br@, chain@).contains(x) by {
            if e.park_scope(cx@, f@, br@, chain@).contains(x) {
                let y = choose|y: usize| #[trigger] chain@.contains(y) && e.cfg.flow(e.park_bars(cx@, f@, br@)).reaches(y, x);
                assert(y < b && chain@.contains(y) && g.reaches(y, x));
            }
        }
        assert(r@ =~= e.park_scope(cx@, f@, br@, chain@));
        r
    }

    fn does_pass(&self, t: usize, c: usize, stop: &HashSet<usize>) -> (r: bool)
        requires
            self.wf(),
        ensures
            r == self.env().passes(t, c, stop@),
            r ==> t < self.env().n(),
    {
        reveal(Env::passes);
        t < self.n() && bypass_flows_to(self.cfg, t, c, stop)
    }

    #[verifier::loop_isolation(false)]
    fn is_coherent(&self, arm: &Region, tail: &Region, stop: &HashSet<usize>) -> (r: bool)
        requires
            self.wf(),
        ensures
            r == self.env().coherent(arm.view(), tail.view(), stop@),
    {
        reveal(Env::coherent);
        let ghost e = self.env();
        match tail.last_goto() {
            Some(c) => {
                let mut ts: Vec<usize> = Vec::new();
                arm.tail_targets(&mut ts);
                assert(ts@ =~= arm.view().tail_targets());
                let mut i: usize = 0;
                while i < ts.len()
                    invariant
                        i <= ts@.len(),
                        forall|j: int|
                            0 <= j < i ==> {
                                let t = #[trigger] arm.view().tail_targets()[j];
                                t == c || e.passes(t, c, stop@)
                            },
                    decreases ts@.len() - i,
                {
                    let t = ts[i];
                    assert(t == arm.view().tail_targets()[i as int]);
                    if t != c && !self.does_pass(t, c, stop) {
                        return false;
                    }
                    i += 1;
                }
                true
            },
            None => true,
        }
    }

    #[verifier::loop_isolation(false)]
    fn widen(&self, scope: &HashSet<usize>, ts: &Vec<usize>, stop: &HashSet<usize>) -> (r: HashSet<usize>)
        requires
            self.wf(),
            self.ids_ok(scope@),
        ensures
            r@ == self.env().widened(scope@, ts@, stop@),
            self.ids_ok(r@),
    {
        reveal(Env::widened);
        let ghost e = self.env();
        let mut r = copy_set(scope);
        let mut i: usize = 0;
        while i < ts.len()
            invariant
                i <= ts@.len(),
                self.ids_ok(r@),
                forall|x: usize|
                    #[trigger] r@.contains(x) <==> scope@.contains(x) || exists|j: int|
                        0 <= j < i && #[trigger] ts@[j] < e.n() && (x == ts@[j] || e.reach_within(ts@[j], stop@).contains(x)),
            decreases ts@.len() - i,
        {
            let ghost r0 = r@;
            let t = ts[i];
            if t < self.n() {
                r.insert(t);
                let more = reachable_within(self.cfg, t, stop);
                assert(more@ == e.reach_within(t, stop@));
                extend_set(&mut r, &more);
            }
            assert forall|x: usize|
                #[trigger] r@.contains(x) <==> scope@.contains(x) || exists|j: int|
                    0 <= j < i + 1 && #[trigger] ts@[j] < e.n() && (x == ts@[j] || e.reach_within(ts@[j], stop@).contains(
                        x,
                    )) by {
                if r0.contains(x) && !scope@.contains(x) {
                    let j = choose|j: int|
                        0 <= j < i && #[trigger] ts@[j] < e.n() && (x == ts@[j] || e.reach_within(ts@[j], stop@).contains(x));
                    assert(ts@[j] < e.n());
                }
                if r@.contains(x) && !r0.contains(x) {
                    assert(ts@[i as int] < e.n());
                }
                assert(r0.contains(x) ==> r@.contains(x));
            }
            i += 1;
        }
        assert(r@ =~= e.widened(scope@, ts@, stop@));
        r
    }

    fn parked_tail(&self, cx: &WalkCx, st: &mut WalkState, f: &WalkFrame, br: &WalkBranch, arm: Region, chain: &HashSet<usize>) -> (r: Region)
        requires
            self.wf(),
            self.frame_ok(*f),
            self.branch_ok(*br),
            self.ids_ok(chain@),
            self.groups_ok(old(st).structuring@),
            self.valid(arm.view()),
        ensures
            final(st).cuts@ == old(st).cuts@ ==> (r.view(), final(st)@) == self.env().parked_tail(cx@, old(st)@, f@, br@, arm.view(), chain@),
            walk::kept(*self, *old(st), *final(st)),
            self.valid(r.view()),
        decreases 256 - cx.depth, 4nat, 0nat, 0nat, Tree::Empty, 0nat, 0nat,
    {
        let ghost e = self.env();
        let bars = self.bars_of_park(cx, f, br);
        let scope = self.scope_of_park(cx, f, br, chain, &bars);
        let stop = minus(&bars, chain);
        let saved_claimed = copy_set(&st.claimed);
        let saved_tails = copy_set(&st.tails);
        let saved_groups = crate::sets::copy_list(&st.structuring);
        let tail = self.park_walk(cx, st, f, br.taken, &scope, &stop);
        let ghost after = st@;
        if !self.does_accept(&arm, &tail, &stop) {
            st.claimed = saved_claimed;
            st.tails = saved_tails;
            st.structuring = saved_groups;
            assert(st@ =~= (St {
                claimed: old(st)@.claimed,
                tails: old(st)@.tails,
                structuring: old(st)@.structuring,
                ..after
            }));
            return arm;
        }
        st.claim_all(&saved_claimed);
        let arm2 = self.fill_arm(cx, st, arm, &tail, br.taken, &scope, &stop, f.active);
        proof {
            region::lemma_pair(arm2.view(), tail.view(), e.n(), e.groups.len());
        }
        pair(arm2, tail)
    }

    fn park_walk(&self, cx: &WalkCx, st: &mut WalkState, f: &WalkFrame, t: usize, scope: &HashSet<usize>, stop: &HashSet<usize>) -> (r: Region)
        requires
            self.wf(),
            self.frame_ok(*f),
            t < self.env().n(),
            self.ids_ok(scope@),
            self.groups_ok(old(st).structuring@),
        ensures
            final(st).cuts@ == old(st).cuts@ ==> (r.view(), final(st)@) == self.env().park_walk(cx@, old(st)@, f@, t, scope@, stop@),
            walk::kept(*self, *old(st), *final(st)),
            self.valid(r.view()),
        decreases 256 - cx.depth, 1nat, 0nat, 0nat, Tree::Empty, 0nat, 0nat,
    {
        if st.budget == 0 {
            return Region::Empty;
        }
        st.spend();
        self.walk(cx, st, t, scope, stop, f.active, false)
    }

    fn does_accept(&self, arm: &Region, tail: &Region, stop: &HashSet<usize>) -> (r: bool)
        requires
            self.wf(),
        ensures
            r == self.env().accepts(arm.view(), tail.view(), stop@),
    {
        reveal(Env::accepts);
        !tail.is_empty_region() && tail.simple() && self.is_coherent(arm, tail, stop)
    }

    fn fill_arm(
        &self,
        cx: &WalkCx,
        st: &mut WalkState,
        arm: Region,
        tail: &Region,
        taken: usize,
        scope: &HashSet<usize>,
        stop: &HashSet<usize>,
        active: &Vec<usize>,
    ) -> (r: Region)
        requires
            self.wf(),
            self.ids_ok(scope@),
            self.groups_ok(active@),
            self.groups_ok(old(st).structuring@),
            self.valid(tail.view()),
            self.valid(arm.view()),
        ensures
            final(st).cuts@ == old(st).cuts@ ==> (r.view(), final(st)@) == self.env().fill_arm(
                cx@,
                old(st)@,
                arm.view(),
                tail.view(),
                taken,
                scope@,
                stop@,
                active@,
            ),
            walk::kept(*self, *old(st), *final(st)),
            self.valid(r.view()),
        decreases 256 - cx.depth, 3nat, 0nat, 0nat, Tree::Empty, 0nat, 0nat,
    {
        let none: Vec<usize> = Vec::new();
        assert(none@ =~= Seq::empty());
        if tail.terminates(self.results, &none) && arm.deep_empty(true) {
            self.skip_fill(cx, st, arm, tail, taken, scope, stop, active)
        } else {
            let mut ts: Vec<usize> = Vec::new();
            arm.tail_targets(&mut ts);
            assert(ts@ =~= arm.view().tail_targets());
            let wide = self.widen(scope, &ts, stop);
            self.bypass_fill(cx, st, arm, tail, taken, &wide, stop, active, true)
        }
    }

    fn does_complete(&self, r: &Region) -> (b: bool)
        ensures
            b == model::completes(self.env(), r.view()),
    {
        reveal(model::completes);
        let none: Vec<usize> = Vec::new();
        assert(none@ =~= Seq::empty());
        !r.is_empty_region() && r.simple() && r.terminates(self.results, &none)
    }

    fn bypass_fill(
        &self,
        cx: &WalkCx,
        st: &mut WalkState,
        r: Region,
        copy: &Region,
        taken: usize,
        scope: &HashSet<usize>,
        stop: &HashSet<usize>,
        active: &Vec<usize>,
        top: bool,
    ) -> (q: Region)
        requires
            self.wf(),
            self.ids_ok(scope@),
            self.groups_ok(active@),
            self.groups_ok(old(st).structuring@),
            self.valid(copy.view()),
            self.valid(r.view()),
        ensures
            final(st).cuts@ == old(st).cuts@ ==> (q.view(), final(st)@) == self.env().bypass_fill(
                cx@,
                old(st)@,
                r.view(),
                copy.view(),
                taken,
                scope@,
                stop@,
                active@,
                top,
            ),
            walk::kept(*self, *old(st), *final(st)),
            self.valid(q.view()),
        decreases 256 - cx.depth, 2nat, 0nat, 0nat, r.view(), 1nat, 0nat,
    {
        let ghost e = self.env();
        let ghost rv = r.view();
        let ghost st0 = *st;
        match r {
            Region::Sequence(v) => {
                proof {
                    region::lemma_sequence_view(v);
                }
                let ghost t0 = region::trees(v@);
                let n = v.len();
                let mut rest = v;
                let mut done: Vec<Region> = Vec::new();
                let mut k: usize = 0;
                proof {
                    assert(region::trees(done@) =~= Seq::empty());
                    assert(region::trees(rest@) =~= t0.skip(0));
                }
                while k < n
                    invariant
                        self.wf(),
                        e == self.env(),
                        self.ids_ok(scope@),
                        self.groups_ok(active@),
                        rv == r.view(),
                        rv == Tree::Sequence(t0),
                        n == t0.len(),
                        k <= n,
                        walk::kept(*self, st0, *st),
                        self.valid(rv),
                        self.valid(copy.view()),
                        self.valid_parts(region::trees(done@)),
                        region::trees(rest@) == t0.skip(k as int),
                        st.cuts@ == st0.cuts@ ==> (region::trees(done@), st@) == e.bypass_parts(
                            cx@,
                            st0@,
                            rv,
                            copy.view(),
                            taken,
                            scope@,
                            stop@,
                            active@,
                            top,
                            k as nat,
                        ),
                    decreases n - k,
                {
                    let ghost before = region::trees(rest@);
                    let ghost first = rest@[0];
                    assert(rest@.len() == t0.skip(k as int).len());
                    assert(before[0] == t0.skip(k as int)[0]);
                    assert(before[0] == first.view());
                    let x = rest.remove(0);
                    assert(x.view() == t0[k as int]);
                    assert(region::trees(rest@) =~= t0.skip(k + 1)) by {
                        assert forall|i: int| 0 <= i < rest@.len() implies region::trees(rest@)[i] == t0.skip(k + 1)[i] by {
                            assert(before[i + 1] == t0.skip(k as int)[i + 1]);
                        }
                    }
                    let ghost dv = region::trees(done@);
                    let last = match &x {
                        Region::Goto { target } => if k + 1 == n {
                            Some(*target)
                        } else {
                            None
                        },
                        _ => None,
                    };
                    match last {
                        Some(t) => {
                            assert(self.valid(rv->Sequence_0[k as int]));
                            done = self.bypass_last(cx, st, done, t, copy, taken, scope, stop, active, top);
                        },
                        None => {
                            proof {
                                assert(decreases_to!(rv => rv->Sequence_0));
                                assert(decreases_to!(t0 => t0[k as int]));
                            }
                            let y = self.bypass_fill(cx, st, x, copy, taken, scope, stop, active, false);
                            let ghost yv = y.view();
                            done.push(y);
                            assert(region::trees(done@) =~= dv.push(yv));
                        },
                    }
                    k += 1;
                }
                proof {
                    region::lemma_sequence_view(done);
                }
                Region::Sequence(done)
            },
            Region::If { block, cond, then_r, else_r, follow, ternary } => {
                proof {
                    assert(decreases_to!(rv => rv->then_r));
                    assert(decreases_to!(rv => rv->else_r));
                }
                let t = self.bypass_fill(cx, st, *then_r, copy, taken, scope, stop, active, false);
                let x = self.bypass_fill(cx, st, *else_r, copy, taken, scope, stop, active, false);
                Region::If { block, cond, then_r: Box::new(t), else_r: Box::new(x), follow, ternary }
            },
            Region::Try { group_idx, body, catches } => {
                let ghost r0 = Region::Try { group_idx, body, catches };
                proof {
                    region::lemma_try_view(r0);
                }
                let b = self.bypass_fill(cx, st, *body, copy, taken, scope, stop, active, false);
                let ghost st1 = st@;
                let ghost cuts = st.cuts@;
                let ghost c0 = region::catches_view(catches@);
                let n = catches.len();
                let mut rest = catches;
                let mut done: Vec<(Vec<String>, usize, Box<Region>)> = Vec::new();
                let mut k: usize = 0;
                proof {
                    assert(region::catches_view(done@) =~= Seq::empty());
                    assert(region::catches_view(rest@) =~= c0.skip(0));
                }
                while k < n
                    invariant
                        self.wf(),
                        e == self.env(),
                        self.ids_ok(scope@),
                        self.groups_ok(active@),
                        rv == r.view(),
                        rv is Try,
                        rv->Try_catches == c0,
                        n == c0.len(),
                        k <= n,
                        walk::kept(*self, st0, *st),
                        self.valid(rv),
                        self.valid(copy.view()),
                        self.valid_catches(region::catches_view(done@)),
                        cuts <= st.cuts@,
                        region::catches_view(rest@) == c0.skip(k as int),
                        st.cuts@ == cuts ==> (region::catches_view(done@), st@) == e.bypass_catches(
                            cx@,
                            st1,
                            rv,
                            copy.view(),
                            taken,
                            scope@,
                            stop@,
                            active@,
                            k as nat,
                        ),
                    decreases n - k,
                {
                    let ghost before = region::catches_view(rest@);
                    let ghost first = rest@[0];
                    assert(rest@.len() == c0.skip(k as int).len());
                    assert(before[0] == c0.skip(k as int)[0]);
                    assert(before[0] == (region::names(first.0@), first.1, first.2.view()));
                    let (names, hb, h) = rest.remove(0);
                    let ghost nv = region::names(names@);
                    assert((nv, hb, h.view()) == c0[k as int]);
                    assert(region::catches_view(rest@) =~= c0.skip(k + 1)) by {
                        assert forall|i: int| 0 <= i < rest@.len() implies region::catches_view(rest@)[i] == c0.skip(k + 1)[i] by {
                            assert(before[i + 1] == c0.skip(k as int)[i + 1]);
                        }
                    }
                    let ghost dv = region::catches_view(done@);
                    proof {
                        assert(decreases_to!(rv => rv->Try_catches));
                        assert(decreases_to!(c0 => c0[k as int]));
                        assert(decreases_to!(c0[k as int] => c0[k as int].2));
                    }
                    let y = self.bypass_fill(cx, st, *h, copy, taken, scope, stop, active, false);
                    let ghost yv = y.view();
                    done.push((names, hb, Box::new(y)));
                    assert(region::catches_view(done@) =~= dv.push((nv, hb, yv)));
                    k += 1;
                }
                let out = Region::Try { group_idx, body: Box::new(b), catches: done };
                proof {
                    region::lemma_try_view(out);
                }
                out
            },
            other => other,
        }
    }

    fn bypass_last(
        &self,
        cx: &WalkCx,
        st: &mut WalkState,
        u: Vec<Region>,
        t: usize,
        copy: &Region,
        taken: usize,
        scope: &HashSet<usize>,
        stop: &HashSet<usize>,
        active: &Vec<usize>,
        top: bool,
    ) -> (q: Vec<Region>)
        requires
            self.wf(),
            self.ids_ok(scope@),
            self.groups_ok(active@),
            self.groups_ok(old(st).structuring@),
            t < self.env().n(),
            self.valid(copy.view()),
            self.valid_parts(region::trees(u@)),
        ensures
            final(st).cuts@ == old(st).cuts@ ==> (region::trees(q@), final(st)@) == self.env().bypass_last(
                cx@,
                old(st)@,
                region::trees(u@),
                t,
                copy.view(),
                taken,
                scope@,
                stop@,
                active@,
                top,
            ),
            walk::kept(*self, *old(st), *final(st)),
            self.valid_parts(region::trees(q@)),
        decreases 256 - cx.depth, 1nat, 1nat, 0nat, Tree::Empty, 0nat, 0nat,
    {
        let mut u = u;
        if t == taken {
            if !top && st.budget > 0 {
                st.spend();
                push_part(&mut u, copy.copy());
            } else {
                push_part(&mut u, Region::Goto { target: t });
            }
            return u;
        }
        if !self.does_pass(t, taken, stop) {
            push_part(&mut u, Region::Goto { target: t });
            return u;
        }
        let sub = self.ticket_walk(cx, st, t, scope, stop, active);
        if !self.does_complete(&sub) {
            push_part(&mut u, Region::Goto { target: t });
            return u;
        }
        proof {
            reveal(branch::undoubled);
        }
        let mut u = undouble(u, t);
        push_part(&mut u, sub);
        u
    }

    fn suffix_for(
        &self,
        cx: &WalkCx,
        st: &mut WalkState,
        t: usize,
        copy: &Region,
        scope: &HashSet<usize>,
        stop: &HashSet<usize>,
        active: &Vec<usize>,
    ) -> (q: Option<Region>)
        requires
            self.wf(),
            self.ids_ok(scope@),
            self.groups_ok(active@),
            self.groups_ok(old(st).structuring@),
            self.valid(copy.view()),
        ensures
            final(st).cuts@ == old(st).cuts@ ==> ({
                let (x, s) = self.env().suffix_for(cx@, old(st)@, t, copy.view(), scope@, stop@, active@);
                q is Some == x is Some && (q matches Some(y) ==> y.view() == x->0) && final(st)@ == s
            }),
            walk::kept(*self, *old(st), *final(st)),
            q matches Some(x) ==> self.valid(x.view()),
        decreases 256 - cx.depth, 1nat, 1nat, 0nat, Tree::Empty, 0nat, 0nat,
    {
        proof {
            model::lemma_suffix(copy.view(), t, 0, self.env().n(), self.env().groups.len());
        }
        if let Some(x) = suffix_copy(copy, t) {
            return Some(x);
        }
        if t >= self.n() {
            return None;
        }
        let sub = self.ticket_walk(cx, st, t, scope, stop, active);
        if self.does_complete(&sub) {
            Some(sub)
        } else {
            None
        }
    }

    fn skip_empty(
        &self,
        cx: &WalkCx,
        st: &mut WalkState,
        t: usize,
        copy: &Region,
        taken: usize,
        scope: &HashSet<usize>,
        stop: &HashSet<usize>,
        active: &Vec<usize>,
    ) -> (q: Region)
        requires
            self.wf(),
            self.ids_ok(scope@),
            self.groups_ok(active@),
            self.groups_ok(old(st).structuring@),
            self.valid(copy.view()),
        ensures
            final(st).cuts@ == old(st).cuts@ ==> (q.view(), final(st)@) == self.env().skip_empty(
                cx@,
                old(st)@,
                t,
                copy.view(),
                taken,
                scope@,
                stop@,
                active@,
            ),
            walk::kept(*self, *old(st), *final(st)),
            self.valid(q.view()),
        decreases 256 - cx.depth, 1nat, 2nat, 0nat, Tree::Empty, 0nat, 0nat,
    {
        if t == taken {
            return Region::Empty;
        }
        match self.suffix_for(cx, st, t, copy, scope, stop, active) {
            Some(x) => x,
            None => Region::Empty,
        }
    }

    fn skip_fill(
        &self,
        cx: &WalkCx,
        st: &mut WalkState,
        r: Region,
        copy: &Region,
        taken: usize,
        scope: &HashSet<usize>,
        stop: &HashSet<usize>,
        active: &Vec<usize>,
    ) -> (q: Region)
        requires
            self.wf(),
            self.ids_ok(scope@),
            self.groups_ok(active@),
            self.groups_ok(old(st).structuring@),
            self.valid(copy.view()),
            self.valid(r.view()),
        ensures
            final(st).cuts@ == old(st).cuts@ ==> (q.view(), final(st)@) == self.env().skip_fill(
                cx@,
                old(st)@,
                r.view(),
                copy.view(),
                taken,
                scope@,
                stop@,
                active@,
            ),
            walk::kept(*self, *old(st), *final(st)),
            self.valid(q.view()),
        decreases 256 - cx.depth, 2nat, 0nat, 0nat, r.view(), 1nat, 0nat,
    {
        let ghost e = self.env();
        let ghost rv = r.view();
        let ghost st0 = *st;
        match r {
            Region::Sequence(v) => {
                proof {
                    region::lemma_sequence_view(v);
                }
                let ghost t0 = region::trees(v@);
                let n = v.len();
                let mut rest = v;
                let mut done: Vec<Region> = Vec::new();
                let mut k: usize = 0;
                proof {
                    assert(region::trees(done@) =~= Seq::empty());
                    assert(region::trees(rest@) =~= t0.skip(0));
                }
                while k < n
                    invariant
                        self.wf(),
                        e == self.env(),
                        self.ids_ok(scope@),
                        self.groups_ok(active@),
                        rv == r.view(),
                        rv == Tree::Sequence(t0),
                        n == t0.len(),
                        k <= n,
                        walk::kept(*self, st0, *st),
                        self.valid(rv),
                        self.valid(copy.view()),
                        self.valid_parts(region::trees(done@)),
                        region::trees(rest@) == t0.skip(k as int),
                        st.cuts@ == st0.cuts@ ==> (region::trees(done@), st@) == e.skip_parts(
                            cx@,
                            st0@,
                            rv,
                            copy.view(),
                            taken,
                            scope@,
                            stop@,
                            active@,
                            k as nat,
                        ),
                    decreases n - k,
                {
                    let ghost before = region::trees(rest@);
                    let ghost first = rest@[0];
                    assert(rest@.len() == t0.skip(k as int).len());
                    assert(before[0] == t0.skip(k as int)[0]);
                    assert(before[0] == first.view());
                    let x = rest.remove(0);
                    assert(x.view() == t0[k as int]);
                    assert(region::trees(rest@) =~= t0.skip(k + 1)) by {
                        assert forall|i: int| 0 <= i < rest@.len() implies region::trees(rest@)[i] == t0.skip(k + 1)[i] by {
                            assert(before[i + 1] == t0.skip(k as int)[i + 1]);
                        }
                    }
                    let ghost dv = region::trees(done@);
                    assert(self.valid(rv->Sequence_0[k as int]));
                    let is_jump = match &x {
                        Region::Goto { .. } => true,
                        _ => false,
                    };
                    let y = if k + 1 == n && is_jump {
                        x
                    } else {
                        proof {
                            assert(decreases_to!(rv => rv->Sequence_0));
                            assert(decreases_to!(t0 => t0[k as int]));
                        }
                        self.skip_fill(cx, st, x, copy, taken, scope, stop, active)
                    };
                    let ghost yv = y.view();
                    done.push(y);
                    assert(region::trees(done@) =~= dv.push(yv));
                    k += 1;
                }
                proof {
                    region::lemma_sequence_view(done);
                }
                Region::Sequence(done)
            },
            Region::Goto { target } => {
                if target == taken {
                    return Region::Goto { target };
                }
                match self.suffix_for(cx, st, target, copy, scope, stop, active) {
                    Some(x) => x,
                    None => Region::Goto { target },
                }
            },
            Region::If { block, cond, then_r, else_r, follow, ternary } => {
                proof {
                    assert(decreases_to!(rv => rv->then_r));
                    assert(decreases_to!(rv => rv->else_r));
                }
                if block < self.n() && self.succ_of(block).len() == 2 {
                    let t = if then_r.is_empty_region() {
                        self.skip_empty(cx, st, self.succ_of(block)[1], copy, taken, scope, stop, active)
                    } else {
                        self.skip_fill(cx, st, *then_r, copy, taken, scope, stop, active)
                    };
                    let x = if else_r.is_empty_region() {
                        self.skip_empty(cx, st, self.succ_of(block)[0], copy, taken, scope, stop, active)
                    } else {
                        self.skip_fill(cx, st, *else_r, copy, taken, scope, stop, active)
                    };
                    Region::If { block, cond, then_r: Box::new(t), else_r: Box::new(x), follow, ternary }
                } else {
                    Region::If { block, cond, then_r, else_r, follow, ternary }
                }
            },
            Region::Try { group_idx, body, catches } => {
                let ghost r0 = Region::Try { group_idx, body, catches };
                proof {
                    region::lemma_try_view(r0);
                }
                let b = self.skip_fill(cx, st, *body, copy, taken, scope, stop, active);
                let ghost st1 = st@;
                let ghost cuts = st.cuts@;
                let ghost c0 = region::catches_view(catches@);
                let n = catches.len();
                let mut rest = catches;
                let mut done: Vec<(Vec<String>, usize, Box<Region>)> = Vec::new();
                let mut k: usize = 0;
                proof {
                    assert(region::catches_view(done@) =~= Seq::empty());
                    assert(region::catches_view(rest@) =~= c0.skip(0));
                }
                while k < n
                    invariant
                        self.wf(),
                        e == self.env(),
                        self.ids_ok(scope@),
                        self.groups_ok(active@),
                        rv == r.view(),
                        rv is Try,
                        rv->Try_catches == c0,
                        n == c0.len(),
                        k <= n,
                        walk::kept(*self, st0, *st),
                        self.valid(rv),
                        self.valid(copy.view()),
                        self.valid_catches(region::catches_view(done@)),
                        cuts <= st.cuts@,
                        region::catches_view(rest@) == c0.skip(k as int),
                        st.cuts@ == cuts ==> (region::catches_view(done@), st@) == e.skip_catches(
                            cx@,
                            st1,
                            rv,
                            copy.view(),
                            taken,
                            scope@,
                            stop@,
                            active@,
                            k as nat,
                        ),
                    decreases n - k,
                {
                    let ghost before = region::catches_view(rest@);
                    let ghost first = rest@[0];
                    assert(rest@.len() == c0.skip(k as int).len());
                    assert(before[0] == c0.skip(k as int)[0]);
                    assert(before[0] == (region::names(first.0@), first.1, first.2.view()));
                    let (names, hb, h) = rest.remove(0);
                    let ghost nv = region::names(names@);
                    assert((nv, hb, h.view()) == c0[k as int]);
                    assert(region::catches_view(rest@) =~= c0.skip(k + 1)) by {
                        assert forall|i: int| 0 <= i < rest@.len() implies region::catches_view(rest@)[i] == c0.skip(k + 1)[i] by {
                            assert(before[i + 1] == c0.skip(k as int)[i + 1]);
                        }
                    }
                    let ghost dv = region::catches_view(done@);
                    proof {
                        assert(decreases_to!(rv => rv->Try_catches));
                        assert(decreases_to!(c0 => c0[k as int]));
                        assert(decreases_to!(c0[k as int] => c0[k as int].2));
                    }
                    let y = self.skip_fill(cx, st, *h, copy, taken, scope, stop, active);
                    let ghost yv = y.view();
                    done.push((names, hb, Box::new(y)));
                    assert(region::catches_view(done@) =~= dv.push((nv, hb, yv)));
                    k += 1;
                }
                let out = Region::Try { group_idx, body: Box::new(b), catches: done };
                proof {
                    region::lemma_try_view(out);
                }
                out
            },
            other => other,
        }
    }
}

impl<'a> Structurer<'a> {
    // -- the branch -------------------------------------------------------------------------------

    fn is_pure_value(&self, b: usize, follow: Option<usize>) -> (r: bool)
        requires
            self.wf(),
        ensures
            r == self.env().pure_value(b, follow),
    {
        if b >= self.n() || !self.is_quiet(b) || self.results[b].out_stack.len() != 1 {
            return false;
        }
        match self.results[b].term {
            Term::Fallthrough => true,
            Term::Goto => self.succ_of(b).len() == 1 && follow == Some(self.succ_of(b)[0]),
            _ => false,
        }
    }

    fn value_block(&self, r: &Region, follow: Option<usize>) -> (b: Option<usize>)
        requires
            self.wf(),
        ensures
            b == self.env().value_side(r.view(), follow),
            b matches Some(x) ==> self.env().pure_value(x, follow),
    {
        match r {
            Region::Basic { block } => if self.is_pure_value(*block, follow) {
                Some(*block)
            } else {
                None
            },
            Region::Sequence(v) => {
                proof {
                    region::lemma_sequence_view(*v);
                }
                let ghost t = region::trees(v@);
                if v.len() != 2 {
                    return None;
                }
                assert(t[0] == v@[0].view() && t[1] == v@[1].view());
                match (&v[0], &v[1]) {
                    (Region::Basic { block }, Region::Goto { target }) => if follow == Some(*target) && self.is_pure_value(
                        *block,
                        follow,
                    ) {
                        Some(*block)
                    } else {
                        None
                    },
                    _ => None,
                }
            },
            _ => None,
        }
    }

    pub(crate) fn cond_step(&self, cx: &WalkCx, f: &WalkFrame, w: &mut Work, st: &mut WalkState, cond: Arc<Expr>, pre: bool)
        requires
            self.wf(),
            self.frame_ok(*f),
            old(w).cur < self.env().n(),
            self.groups_ok(old(st).structuring@),
            self.valid_parts(region::trees(old(w).parts@)),
        ensures
            final(st).cuts@ == old(st).cuts@ ==> state::ws(*final(w), *final(st)) == self.env().cond_step(
                cx@,
                f@,
                state::ws(*old(w), *old(st)),
                *cond,
                pre,
            ),
            final(w).cur < self.env().n(),
            walk::kept(*self, *old(st), *final(st)),
            self.valid_parts(region::trees(final(w).parts@)),
        decreases 256 - cx.depth, 6nat, 0nat, 4nat, Tree::Empty, 0nat, 0nat,
    {
        let cur = w.cur;
        let list = self.succ_of(cur);
        if list.len() != 2 {
            w.push(Region::Basic { block: cur });
            if list.len() > 0 && w.can_enter(f, st, list[0]) {
                w.cur = list[0];
            } else {
                w.done = true;
            }
            return;
        }
        let fall = list[0];
        let taken = list[1];
        let pd = self.merge_of_branch(f, cur, taken, fall);
        let follow = self.follow_of_branch(f, w, st, pd, pre);
        let bstop = self.set_with_follow(f.stop, follow);
        let merges = self.merges_for_diamond(f, w, st, taken, fall, pd);
        if let Some((m, s)) = self.find_diamond(f, w, st, taken, fall, &bstop, &merges) {
            if !self.is_quiet(cur) {
                w.push(Region::Basic { block: cur });
            }
            st.claim_all(&s);
            w.cur = m;
            return;
        }
        let fo = match follow {
            Some(x) => Some(x),
            None => self.follow_of_stub(cx, f, w, st, taken, fall),
        };
        let br = WalkBranch { cur, taken, fall, follow: fo, bstop: self.set_with_follow(f.stop, fo) };
        self.branch_step(cx, f, w, st, cond, &br);
    }

    fn branch_step(&self, cx: &WalkCx, f: &WalkFrame, w: &mut Work, st: &mut WalkState, cond: Arc<Expr>, br: &WalkBranch)
        requires
            self.wf(),
            self.frame_ok(*f),
            old(w).cur < self.env().n(),
            self.branch_ok(*br),
            br.follow matches Some(x) ==> x < self.env().n(),
            self.groups_ok(old(st).structuring@),
            self.valid_parts(region::trees(old(w).parts@)),
        ensures
            final(st).cuts@ == old(st).cuts@ ==> state::ws(*final(w), *final(st)) == self.env().branch_step(
                cx@,
                f@,
                state::ws(*old(w), *old(st)),
                *cond,
                br@,
            ),
            final(w).cur < self.env().n(),
            walk::kept(*self, *old(st), *final(st)),
            self.valid_parts(region::trees(final(w).parts@)),
            region::goes_on_with(
                region::trees(final(w).parts@),
                region::trees(old(w).parts@),
                region::trees(final(w).parts@)[old(w).parts@.len() as int],
            ),
            region::trees(final(w).parts@)[old(w).parts@.len() as int] matches Tree::If { block, cond: c, follow, .. } && block
                == old(w).cur && c == *cond && follow == br.follow,
        decreases 256 - cx.depth, 6nat, 0nat, 3nat, Tree::Empty, 0nat, 0nat,
    {
        let then_r = self.then_side(cx, st, f, br);
        let else_r = self.else_side(cx, st, f, br);
        let a = self.value_block(&then_r, br.follow);
        let b = self.value_block(&else_r, br.follow);
        let mut ternary: Option<(Arc<Expr>, Arc<Expr>)> = None;
        if br.follow.is_some() {
            if let Some(x) = a {
                if let Some(y) = b {
                    ternary = Some((ir::share(&self.results[x].out_stack[0]), ir::share(&self.results[y].out_stack[0])));
                    st.claim(x);
                    st.claim(y);
                }
            }
        }
        let r = Region::If {
            block: w.cur,
            cond,
            then_r: Box::new(then_r),
            else_r: Box::new(else_r),
            follow: br.follow,
            ternary,
        };
        w.push(r);
        self.after_branch(cx, f, w, st, br.follow);
    }

    fn after_branch(&self, cx: &WalkCx, f: &WalkFrame, w: &mut Work, st: &mut WalkState, follow: Option<usize>)
        requires
            self.wf(),
            self.frame_ok(*f),
            old(w).cur < self.env().n(),
            follow matches Some(x) ==> x < self.env().n(),
            self.groups_ok(old(st).structuring@),
            self.valid_parts(region::trees(old(w).parts@)),
        ensures
            final(st).cuts@ == old(st).cuts@ ==> state::ws(*final(w), *final(st)) == self.env().after_branch(
                cx@,
                f@,
                state::ws(*old(w), *old(st)),
                follow,
            ),
            final(w).cur < self.env().n(),
            walk::kept(*self, *old(st), *final(st)),
            self.valid_parts(region::trees(final(w).parts@)),
            region::extends(region::trees(final(w).parts@), region::trees(old(w).parts@)),
        decreases 256 - cx.depth, 1nat, 0nat, 0nat, Tree::Empty, 0nat, 0nat,
    {
        let x = match follow {
            Some(x) => x,
            None => {
                w.done = true;
                return;
            },
        };
        if w.can_enter(f, st, x) {
            w.cur = x;
            return;
        }
        if f.universe.contains(&x) && !f.stop.contains(&x) && !list_has(&cx.loops, x) && !self.does_reach(x, w.cur, 4096) {
            let header = if self.ends_goto(x) && self.succ_of(x).len() == 1 {
                self.header_behind(self.succ_of(x)[0], &cx.loops)
            } else {
                None
            };
            if let Some(h) = header {
                proof {
                    region::lemma_pair(
                        Tree::CopyStmts { block: x },
                        model::jump(h),
                        self.env().n(),
                        self.env().groups.len(),
                    );
                }
                w.push(pair(Region::CopyStmts { block: x }, Region::Goto { target: h }));
                w.done = true;
                return;
            }
            let mut bars = copy_set(f.stop);
            bars.insert(w.cur);
            assert(bars@ =~= f.stop@.insert(w.cur));
            let scope = reachable_within(self.cfg, x, &bars);
            assert(scope@ == self.env().reach_within(x, bars@));
            let saved = st.take_claimed();
            let r = self.walk(cx, st, x, &scope, f.stop, f.active, true);
            st.set_claimed(saved);
            st.add_tail(x);
            w.push(r);
        }
        w.done = true;
    }

    // -- a switch -----------------------------------------------------------------------------------

    fn follow_of_cases(&self, f: &WalkFrame, cur: usize) -> (r: Option<usize>)
        requires
            self.wf(),
            self.frame_ok(*f),
            cur < self.env().n(),
        ensures
            r == self.env().cases_follow(f@, cur),
            r matches Some(x) ==> x < self.env().n(),
    {
        if let Some(x) = self.postdom_ipdom(f.universe, cur) {
            return Some(x);
        }
        if let Some(x) = self.switch_follow(cur, f.universe) {
            return Some(x);
        }
        self.switch_stop_confluence(cur, f.universe, f.stop)
    }

    fn stop_of_cases(&self, block: usize, follow: Option<usize>, stop: &HashSet<usize>, heads: &HashSet<usize>) -> (r: HashSet<usize>)
        requires
            heads@ == self.env().arm_heads(block, follow),
        ensures
            r@ == self.env().case_stop(block, follow, stop@),
    {
        let mut r = copy_set(stop);
        extend_set(&mut r, heads);
        if let Some(x) = follow {
            r.insert(x);
        }
        assert(r@ =~= self.env().case_stop(block, follow, stop@));
        r
    }

    fn arm_region(
        &self,
        cx: &WalkCx,
        st: &mut WalkState,
        block: usize,
        b: usize,
        scope: &HashSet<usize>,
        universe: &HashSet<usize>,
        stop: &HashSet<usize>,
        cstop: &HashSet<usize>,
        heads: &HashSet<usize>,
        follow: Option<usize>,
        active: &Vec<usize>,
        pattern: bool,
    ) -> (r: Region)
        requires
            self.wf(),
            b < self.env().n(),
            self.ids_ok(scope@),
            cstop@ == self.env().case_stop(block, follow, stop@).remove(b),
            heads@ == self.env().arm_heads(block, follow),
            self.groups_ok(active@),
            self.groups_ok(old(st).structuring@),
            follow matches Some(x) ==> x < self.env().n(),
        ensures
            final(st).cuts@ == old(st).cuts@ ==> (r.view(), final(st)@) == self.env().arm_region(
                cx@,
                old(st)@,
                block,
                b,
                scope@,
                universe@,
                stop@,
                follow,
                active@,
                pattern,
            ),
            walk::kept(*self, *old(st), *final(st)),
            self.valid(r.view()),
        decreases 256 - cx.depth, 3nat, 0nat, 0nat, Tree::Empty, 0nat, 0nat,
    {
        if !universe.contains(&b) || st.claimed.contains(&b) {
            if !stop.contains(&b) && !list_has(&cx.loops, b) {
                return self.copy_or_jump(cx, st, b, cstop, active, block);
            }
            return Region::Goto { target: b };
        }
        let inner = cx.in_arm(b, follow, pattern);
        let r = self.walk(&inner, st, b, scope, cstop, active, false);
        proof {
            region::lemma_without_fallthrough(r.view(), heads@, self.env().n(), self.env().groups.len());
        }
        let r = r.without_fallthrough(heads);
        proof {
            if let Some(x) = follow {
                region::lemma_pair(r.view(), model::jump(x), self.env().n(), self.env().groups.len());
            }
        }
        self.bind_arm(r, follow)
    }

    /// Structure the switch at `block`.
    pub(crate) fn structure_switch(
        &self,
        cx: &WalkCx,
        st: &mut WalkState,
        block: usize,
        selector: Arc<Expr>,
        universe: &HashSet<usize>,
        stop: &HashSet<usize>,
        follow: Option<usize>,
        active: &Vec<usize>,
    ) -> (r: Region)
        requires
            self.wf(),
            block < self.env().n(),
            self.groups_ok(active@),
            self.groups_ok(old(st).structuring@),
            follow matches Some(x) ==> x < self.env().n(),
        ensures
            final(st).cuts@ == old(st).cuts@ ==> (r.view(), final(st)@) == self.env().switch_region(
                cx@,
                old(st)@,
                block,
                *selector,
                universe@,
                stop@,
                follow,
                active@,
            ),
            walk::kept(*self, *old(st), *final(st)),
            self.valid(r.view()),
            r.view() matches Tree::Switch { block: b, selector: s, cases, default, follow: f } && {
                &&& b == block
                &&& s == *selector
                &&& f == follow
                &&& cases.len() == self.env().case_groups(block, follow).len()
                &&& forall|k: int|
                    0 <= k < cases.len() ==> (#[trigger] cases[k]).0 == self.env().case_groups(block, follow)[k].vals
                &&& forall|k: int|
                    0 <= k < cases.len() && self.env().case_groups(block, follow)[k].is_follow ==> (#[trigger] cases[k]).1
                        == model::jump(self.env().case_groups(block, follow)[k].target)
                &&& default is Some == self.env().default_block(block, follow) is Some
            },
        decreases 256 - cx.depth, 5nat, 0nat, 0nat, Tree::Empty, 0nat, 0nat,
    {
        let ghost e = self.env();
        let ghost st0 = *st;
        let pattern = has_pattern_selector(&selector);
        let gs = self.group_cases(block, follow);
        let heads = self.heads_of_arms(block, follow, &gs);
        let all_stop = self.stop_of_cases(block, follow, stop, &heads);
        let ghost gv = e.case_groups(block, follow);
        let mut out: Vec<(Vec<i64>, Region)> = Vec::new();
        let mut k: usize = 0;
        assert(region::cases_view(out@) =~= Seq::empty());
        while k < gs.len()
            invariant
                self.wf(),
                e == self.env(),
                block < e.n(),
                self.groups_ok(active@),
                k <= gs@.len(),
                gv == e.case_groups(block, follow),
                cases::case_views(gs@) == gv,
                forall|i: int| 0 <= i < gs@.len() ==> (#[trigger] gs@[i]).target < e.n(),
                heads@ == e.arm_heads(block, follow),
                all_stop@ == e.case_stop(block, follow, stop@),
                walk::kept(*self, st0, *st),
                follow matches Some(x) ==> x < e.n(),
                self.valid_cases(region::cases_view(out@)),
                out@.len() == k,
                forall|i: int| 0 <= i < k ==> (#[trigger] region::cases_view(out@)[i]).0 == gv[i].vals,
                forall|i: int|
                    0 <= i < k && gv[i].is_follow ==> (#[trigger] region::cases_view(out@)[i]).1 == model::jump(gv[i].target),
                st.cuts@ == st0.cuts@ ==> (region::cases_view(out@), st@) == e.case_regions(
                    cx@,
                    st0@,
                    block,
                    universe@,
                    stop@,
                    follow,
                    active@,
                    pattern,
                    k as nat,
                ),
            decreases gs@.len() - k,
        {
            let g = &gs[k];
            assert(gv[k as int] == g@);
            let ghost ov = region::cases_view(out@);
            let b = g.target;
            let r = if g.is_follow {
                Region::Goto { target: b }
            } else {
                let mut cstop = copy_set(&all_stop);
                cstop.remove(&b);
                assert(cstop@ =~= e.case_stop(block, follow, stop@).remove(b));
                let scope = self.branch_scope(b, universe, &cstop, &st.claimed);
                self.arm_region(
                    cx,
                    st,
                    block,
                    b,
                    &scope,
                    universe,
                    stop,
                    &cstop,
                    &heads,
                    follow,
                    active,
                    pattern,
                )
            };
            let vals = copy_vals(&g.vals);
            let ghost item = (vals@, r.view());
            out.push((vals, r));
            assert(region::cases_view(out@) =~= ov.push(item));
            k += 1;
        }
        let default = match self.default_of(block, follow) {
            Some(b) => {
                let mut cstop = copy_set(&all_stop);
                cstop.remove(&b);
                assert(cstop@ =~= e.case_stop(block, follow, stop@).remove(b));
                let scope = reachable_within(self.cfg, b, &cstop);
                assert(scope@ == e.reach_within(b, cstop@));
                let r = self.arm_region(
                    cx,
                    st,
                    block,
                    b,
                    &scope,
                    universe,
                    stop,
                    &cstop,
                    &heads,
                    follow,
                    active,
                    pattern,
                );
                Some(Box::new(r))
            },
            None => None,
        };
        let r = Region::Switch { block, selector, cases: out, default, follow };
        proof {
            region::lemma_switch_view(r);
        }
        r
    }

    fn may_cross(&self, cx: &WalkCx, f: &WalkFrame, w: &Work, x: usize, Ghost(st): Ghost<WalkState>) -> (r: bool)
        ensures
            r == self.env().may_cross(cx@, f@, state::ws(*w, st), x),
    {
        let none: Vec<usize> = Vec::new();
        assert(none@ =~= Seq::empty());
        let ghost ts = region::trees(w.parts@);
        if w.parts.len() > 0 {
            assert(ts.last() == w.parts@[w.parts@.len() - 1].view());
            if w.parts[w.parts.len() - 1].terminates(self.results, &none) {
                return true;
            }
        }
        if cx.arms.len() == 0 {
            return false;
        }
        let a = cx.arms[cx.arms.len() - 1];
        a.0 == f.entry && a.1 == Some(x) && a.2
    }

    fn bound_switch(&self, cx: &WalkCx, f: &WalkFrame, w: &Work, st: &mut WalkState, selector: Arc<Expr>, follow: Option<usize>) -> (r: Region)
        requires
            self.wf(),
            self.frame_ok(*f),
            w.cur < self.env().n(),
            self.groups_ok(old(st).structuring@),
            follow matches Some(x) ==> x < self.env().n(),
        ensures
            final(st).cuts@ == old(st).cuts@ ==> (r.view(), final(st)@) == self.env().bound_switch(
                cx@,
                f@,
                state::ws(*w, *old(st)),
                *selector,
                follow,
            ),
            walk::kept(*self, *old(st), *final(st)),
            self.valid(r.view()),
            r.view() matches Tree::Switch { block, selector: s, .. } && block == w.cur && s == *selector,
        decreases 256 - cx.depth, 6nat, 0nat, 0nat, Tree::Empty, 0nat, 0nat,
    {
        let ghost before = *st;
        let inner = cx.switching();
        if let Some(x) = follow {
            if f.stop.contains(&x) && cx.in_switch {
                let saved = copy_set(&st.claimed);
                let s2 = ir::share(&selector);
                let r = self.structure_switch(&inner, st, w.cur, selector, f.universe, f.stop, None, f.active);
                if self.may_cross(cx, f, w, x, Ghost(before)) && self.switch_follow_bindable(&r, x) {
                    st.set_claimed(saved);
                    return self.structure_switch(&inner, st, w.cur, s2, f.universe, f.stop, follow, f.active);
                }
                return r;
            }
        }
        self.structure_switch(&inner, st, w.cur, selector, f.universe, f.stop, follow, f.active)
    }

    pub(crate) fn switch_step(&self, cx: &WalkCx, f: &WalkFrame, w: &mut Work, st: &mut WalkState, selector: Arc<Expr>)
        requires
            self.wf(),
            self.frame_ok(*f),
            old(w).cur < self.env().n(),
            self.groups_ok(old(st).structuring@),
            self.valid_parts(region::trees(old(w).parts@)),
        ensures
            final(st).cuts@ == old(st).cuts@ ==> state::ws(*final(w), *final(st)) == self.env().switch_step(
                cx@,
                f@,
                state::ws(*old(w), *old(st)),
                *selector,
            ),
            final(w).cur < self.env().n(),
            walk::kept(*self, *old(st), *final(st)),
            self.valid_parts(region::trees(final(w).parts@)),
            region::goes_on_with(
                region::trees(final(w).parts@),
                region::trees(old(w).parts@),
                region::trees(final(w).parts@)[old(w).parts@.len() as int],
            ),
            region::trees(final(w).parts@)[old(w).parts@.len() as int] matches Tree::Switch { block, selector: s, .. } && block
                == old(w).cur && s == *selector,
        decreases 256 - cx.depth, 6nat, 0nat, 1nat, Tree::Empty, 0nat, 0nat,
    {
        let follow = self.follow_of_cases(f, w.cur);
        let r = self.bound_switch(cx, f, w, st, selector, follow);
        let mut ends = false;
        if let Some(x) = follow {
            ends = st.claimed.contains(&x) && !f.stop.contains(&x) && !list_has(&cx.loops, x) && self.is_terminator_block(x)
                && !self.is_retry_head(x) && !self.does_write_final(x) && r.switch_completes(x, self.results);
        }
        w.push(r);
        match follow {
            Some(x) => {
                if ends {
                    w.push(Region::CopyStmts { block: x });
                    w.done = true;
                } else if w.can_enter(f, st, x) {
                    w.cur = x;
                } else {
                    w.done = true;
                }
            },
            None => {
                w.done = true;
            },
        }
    }
}

fn copy_vals(v: &Vec<i64>) -> (r: Vec<i64>)
    ensures
        r@ == v@,
{
    let mut r: Vec<i64> = Vec::new();
    let mut i: usize = 0;
    while i < v.len()
        invariant
            i <= v@.len(),
            r@ == v@.take(i as int),
        decreases v@.len() - i,
    {
        r.push(v[i]);
        i += 1;
        assert(v@.take(i as int) =~= v@.take(i - 1).push(v@[i - 1]));
    }
    assert(v@.take(i as int) =~= v@);
    r
}

/// Adds a part to a list of parts.
fn push_part(v: &mut Vec<Region>, r: Region)
    ensures
        region::trees(final(v)@) == region::trees(old(v)@).push(r.view()),
{
    let ghost t = region::trees(v@);
    let ghost x = r.view();
    v.push(r);
    assert(region::trees(v@) =~= t.push(x));
}

/// The parts without a copy of the block `t` at their end.
fn undouble(u: Vec<Region>, t: usize) -> (r: Vec<Region>)
    ensures
        region::trees(r@) == branch::undoubled(region::trees(u@), t),
{
    reveal(branch::undoubled);
    let mut u = u;
    let ghost uv = region::trees(u@);
    if u.len() == 0 {
        return u;
    }
    assert(uv.last() == u@[u@.len() - 1].view());
    let doubled = match &u[u.len() - 1] {
        Region::CopyStmts { block } => *block == t,
        _ => false,
    };
    if doubled {
        u.pop();
        assert(region::trees(u@) =~= uv.drop_last());
        push_part(&mut u, Region::Empty);
    }
    u
}

/// A copy of the part of `copy` from the part that stands at `target` on.
#[verifier::loop_isolation(false)]
fn suffix_copy(copy: &Region, target: usize) -> (q: Option<Region>)
    ensures
        ({
            let x = model::suffix_at(copy.view(), target, 0);
            q is Some == x is Some && (q matches Some(y) ==> y.view() == x->0)
        }),
{
    let ghost cv = copy.view();
    match copy {
        Region::Sequence(v) => {
            proof {
                region::lemma_sequence_view(*v);
            }
            let ghost t = region::trees(v@);
            let mut k: usize = 0;
            while k < v.len()
                invariant
                    k <= v@.len(),
                    model::suffix_at(cv, target, k as nat) == model::suffix_at(cv, target, 0),
                decreases v@.len() - k,
            {
                assert(t[k as int] == v@[k as int].view());
                if v[k].head() == target {
                    if v.len() - k == 1 {
                        return Some(v[k].copy());
                    }
                    let u = region::copy_regions(v, k);
                    proof {
                        region::lemma_sequence_view(u);
                    }
                    return Some(Region::Sequence(u));
                }
                k += 1;
            }
            None
        },
        _ => {
            if copy.head() == target {
                Some(copy.copy())
            } else {
                None
            }
        },
    }
}

} // verus!
