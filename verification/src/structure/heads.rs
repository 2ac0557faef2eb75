//! Where regions begin: a walk's region begins at the block that the walk
//! starts from, so every arm, side, body and handler holds the code it is for.

use vstd::prelude::*;

use crate::ir::{Expr, Term};
use crate::structure::dominators;
use crate::structure::env::Env;
use crate::structure::model::{Branch, Cx, Frame, St, Ws};
use crate::structure::region;
use crate::structure::region::Tree;

verus! {

/// The condition or selector that the terminal decides by.
pub open spec fn decided_by(t: Term) -> Expr {
    match t {
        Term::Cond { cond } => *cond,
        Term::Switch { selector, .. } => *selector,
        _ => arbitrary(),
    }
}

impl Env {
    /// Running the region starts with the block `b`; a try, with a group that
    /// starts where `b` starts.
    pub open spec fn begins(self, r: Tree, b: usize) -> bool
        decreases r,
    {
        match r {
            Tree::Basic { block } => block == b,
            Tree::CopyStmts { block } => block == b,
            Tree::If { block, .. } => block == b,
            Tree::Switch { block, .. } => block == b,
            Tree::Loop { header, .. } => header == b,
            Tree::Try { group_idx, .. } => self.groups[group_idx as int].start == self.start(b),
            Tree::Sequence(v) => v.len() > 0 && self.begins(v[0], b),
            _ => false,
        }
    }

    /// The region begins at `b`, or is the jump there, or nothing.
    pub open spec fn heads_to(self, r: Tree, b: usize) -> bool {
        self.begins(r, b) || r == (Tree::Goto { target: b }) || r is Empty
    }

    /// The block has code, and leaves a part of its own where a walk takes it:
    /// it has statements, or it neither branches nor is folded away.
    pub open spec fn shows(self, b: usize) -> bool {
        &&& self.cfg.len(b) != 0
        &&& !self.quiet(b) || !(self.roots.dom().contains(b) || self.term(b) is Cond)
    }

    /// The parts begin at `b`.
    pub open spec fn parts_begin(self, v: Seq<Tree>, b: usize) -> bool {
        v.len() > 0 && self.begins(v[0], b)
    }

    proof fn lemma_extended(self, v: Seq<Tree>, u: Seq<Tree>, b: usize)
        requires
            self.parts_begin(u, b),
            region::extends(v, u),
        ensures
            self.parts_begin(v, b),
    {
        assert(v[0] == u[0]);
    }

    proof fn lemma_after_branch_extends(self, cx: Cx, f: Frame, w: Ws, follow: Option<usize>)
        ensures
            region::extends(self.after_branch(cx, f, w, follow).parts, w.parts),
    {
    }

    proof fn lemma_branch_extends(self, cx: Cx, f: Frame, w: Ws, cond: Expr, br: Branch)
        ensures
            ({
                let v = self.branch_step(cx, f, w, cond, br).parts;
                &&& v.len() > w.parts.len()
                &&& region::extends(v, w.parts)
                &&& v[w.parts.len() as int] matches Tree::If { block, .. } && block == w.cur
            }),
    {
        let (then_r, s1) = self.then_side(cx, w.st, f, br);
        let (else_r, s2) = self.else_side(cx, s1, f, br);
        let values = self.value_sides(then_r, else_r, br.follow);
        let s3 = match values {
            Some((a, b)) => s2.claim(a).claim(b),
            None => s2,
        };
        let r = Tree::If {
            block: w.cur,
            cond,
            then_r: Box::new(then_r),
            else_r: Box::new(else_r),
            follow: br.follow,
            ternary: match values {
                Some((a, b)) => Some((self.value_of(a), self.value_of(b))),
                None => None,
            },
        };
        let w2 = w.with(s3).push(r);
        assert(self.branch_step(cx, f, w, cond, br) == self.after_branch(cx, f, w2, br.follow));
        self.lemma_after_branch_extends(cx, f, w2, br.follow);
        let v = self.after_branch(cx, f, w2, br.follow).parts;
        assert(v[w.parts.len() as int] == w2.parts[w.parts.len() as int]);
        assert forall|i: int| 0 <= i < w.parts.len() implies #[trigger] v[i] == w.parts[i] by {
            assert(v[i] == w2.parts[i]);
        }
    }

    proof fn lemma_cond_extends(self, cx: Cx, f: Frame, w: Ws, cond: Expr, pre: bool)
        ensures
            ({
                let v = self.cond_step(cx, f, w, cond, pre).parts;
                &&& region::extends(v, w.parts)
                &&& !self.quiet(w.cur) ==> v.len() > w.parts.len() && self.begins(v[w.parts.len() as int], w.cur)
            }),
    {
        if self.succ(w.cur).len() == 2 {
            let fall = self.succ(w.cur)[0];
            let taken = self.succ(w.cur)[1];
            let pd = self.branch_merge(f, w.cur, taken, fall);
            let follow = self.branch_follow(f, w, pd, pre);
            let bstop = self.with_follow(f.stop, follow);
            if self.first_diamond(f, w, taken, fall, bstop, self.diamond_merges(f, w, taken, fall, pd), 0) is None {
                let fo = if follow is None {
                    self.stub_follow(cx, f, w, taken, fall)
                } else {
                    follow
                };
                self.lemma_branch_extends(
                    cx,
                    f,
                    w,
                    cond,
                    Branch { cur: w.cur, taken, fall, follow: fo, bstop: self.with_follow(f.stop, fo) },
                );
            }
        }
    }

    proof fn lemma_bound_switch(self, cx: Cx, f: Frame, w: Ws, selector: Expr, follow: Option<usize>)
        ensures
            self.bound_switch(cx, f, w, selector, follow).0 matches Tree::Switch { block, .. } && block == w.cur,
    {
    }

    proof fn lemma_switch_extends(self, cx: Cx, f: Frame, w: Ws, selector: Expr)
        ensures
            ({
                let v = self.switch_step(cx, f, w, selector).parts;
                &&& region::extends(v, w.parts)
                &&& v.len() > w.parts.len()
                &&& self.begins(v[w.parts.len() as int], w.cur)
            }),
    {
        self.lemma_bound_switch(cx, f, w, selector, self.cases_follow(f, w.cur));
    }

    proof fn lemma_goto_extends(self, cx: Cx, f: Frame, w: Ws)
        ensures
            ({
                let v = self.goto_step(cx, f, w).parts;
                &&& region::extends(v, w.parts)
                &&& v.len() > w.parts.len()
                &&& v[w.parts.len() as int] == (Tree::Basic { block: w.cur })
            }),
    {
        let w1 = w.push(Tree::Basic { block: w.cur });
        if self.succ(w.cur).len() > 0 {
            let t = self.succ(w.cur)[0];
            assert(region::extends(self.jump_back(cx, f, w1, t).parts, w1.parts));
            assert(region::extends(self.jump_out(cx, f, w1, t).parts, w1.parts));
        }
        let v = self.goto_step(cx, f, w).parts;
        assert(region::extends(v, w1.parts));
        assert(v[w.parts.len() as int] == w1.parts[w.parts.len() as int]);
        assert forall|i: int| 0 <= i < w.parts.len() implies #[trigger] v[i] == w.parts[i] by {
            assert(v[i] == w1.parts[i]);
        }
    }

    proof fn lemma_fall_extends(self, cx: Cx, f: Frame, w: Ws)
        ensures
            ({
                let v = self.fall_step(cx, f, w).parts;
                &&& region::extends(v, w.parts)
                &&& v.len() > w.parts.len()
                &&& v[w.parts.len() as int] == (Tree::Basic { block: w.cur })
            }),
    {
    }

    proof fn lemma_term_extends(self, cx: Cx, f: Frame, w: Ws)
        ensures
            ({
                let v = self.term_step(cx, f, w).parts;
                &&& region::extends(v, w.parts)
                &&& !self.quiet(w.cur) || !(self.term(w.cur) is Cond) ==> v.len() > w.parts.len() && self.begins(
                    v[w.parts.len() as int],
                    w.cur,
                )
            }),
    {
        let pre = self.at_claimed_entry(f, w);
        let w1 = w.with(w.st.claim(w.cur));
        match self.term(w.cur) {
            Term::Cond { .. } => {
                self.lemma_cond_extends(cx, f, w1, decided_by(self.term(w.cur)), pre);
            },
            Term::Switch { .. } => {
                self.lemma_switch_extends(cx, f, w1, decided_by(self.term(w.cur)));
            },
            Term::Goto => {
                self.lemma_goto_extends(cx, f, w1);
            },
            Term::Fallthrough => {
                self.lemma_fall_extends(cx, f, w1);
            },
            _ => {},
        }
    }

    proof fn lemma_leave_loop_extends(self, cx: Cx, f: Frame, w: Ws, r: Tree)
        ensures
            region::extends(self.leave_loop(cx, f, w, r).parts, w.parts),
    {
    }

    /// What is begun stays begun: a step adds parts, or takes the last one
    /// into a loop that begins with it.
    proof fn lemma_step_keeps(self, cx: Cx, f: Frame, w: Ws, b: usize)
        requires
            self.parts_begin(w.parts, b),
        ensures
            self.parts_begin(self.step(cx, f, w).parts, b),
    {
        let v = self.step(cx, f, w).parts;
        if w.st.claimed.contains(w.cur) && !(w.first && f.allow) {
            assert(region::extends(v, w.parts));
        } else if !w.first && self.is_handler(w.cur) && f.active.len() == 0 {
        } else {
            let w1 = Ws { first: false, ..w };
            if self.cfg.len(w.cur) == 0 {
            } else {
                match self.group_here(w.cur, f.universe, f.active, w.st.structuring, f.pre, f.idom, f.entry, cx.loops) {
                    Some(gi) => {
                        let (r, s) = self.try_region(cx, w.st, gi, f.universe, f.stop);
                        assert(v == w.parts.push(r));
                        assert(v[0] == w.parts[0]);
                    },
                    None => if !self.at_claimed_entry(f, w1) && (self.is_loop_header(
                        w.cur,
                        f.universe,
                        f.idom,
                        f.entry,
                        cx.loops,
                    ) || self.retry.contains(w.cur)) {
                        self.lemma_loop_keeps(cx, f, w1, b);
                    } else if self.roots.dom().contains(w.cur) && self.folds.dom().contains(self.roots[w.cur]) {
                        assert(region::extends(v, w.parts));
                    } else {
                        self.lemma_term_extends(cx, f, w1);
                        self.lemma_extended(v, w.parts, b);
                    },
                }
            }
        }
    }

    proof fn lemma_loop_keeps(self, cx: Cx, f: Frame, w: Ws, b: usize)
        requires
            self.parts_begin(w.parts, b),
        ensures
            self.parts_begin(self.loop_step(cx, f, w).parts, b),
    {
        let (r, s) = self.loop_region(cx, w.st, f, w.cur);
        let next = if self.body_done(r) {
            None
        } else {
            self.next_after_loop(r, f.universe, f.stop, cx.loops)
        };
        let v = self.loop_step(cx, f, w).parts;
        match next {
            Some(n) => if self.rotates(w, r, s, n) {
                assert(v == w.parts.drop_last().push(self.rotated(w, r, n)));
                if w.parts.len() == 1 {
                    assert(w.parts.last() == w.parts[0]);
                    assert(v[0] == self.rotated(w, r, n));
                } else {
                    assert(v[0] == w.parts[0]);
                }
            } else {
                assert(v[0] == w.parts[0]);
            },
            None => {
                let w1 = w.with(s).push(r);
                self.lemma_leave_loop_extends(cx, f, w1, r);
                assert(v[0] == w1.parts[0]);
            },
        }
    }

    proof fn lemma_run_keeps(self, cx: Cx, f: Frame, w: Ws, fuel: nat, b: usize)
        requires
            self.parts_begin(w.parts, b),
        ensures
            self.parts_begin(self.run(cx, f, w, fuel).parts, b),
        decreases fuel,
    {
        if !(fuel == 0 || w.done || f.stop.contains(w.cur) || !f.universe.contains(w.cur)) {
            self.lemma_step_keeps(cx, f, w, b);
            self.lemma_run_keeps(cx, f, self.step(cx, f, w), (fuel - 1) as nat, b);
        }
    }

    /// The first block of a walk that takes it is the first part.
    proof fn lemma_first_step(self, cx: Cx, f: Frame, w: Ws)
        requires
            w.parts.len() == 0,
            w.first,
            !w.st.claimed.contains(w.cur) || f.allow,
            self.shows(w.cur),
        ensures
            self.parts_begin(self.step(cx, f, w).parts, w.cur),
    {
        let w1 = Ws { first: false, ..w };
        let v = self.step(cx, f, w).parts;
        assert(self.step(cx, f, w) == self.block_step(cx, f, w1));
        match self.group_here(w.cur, f.universe, f.active, w.st.structuring, f.pre, f.idom, f.entry, cx.loops) {
            Some(gi) => {
                let (r, s) = self.try_region(cx, w.st, gi, f.universe, f.stop);
                assert(v == w.parts.push(r));
                self.law_not_reopened(w.cur, f.active, w.st.structuring, gi);
                assert(v[0] == r);
            },
            None => if !self.at_claimed_entry(f, w1) && (self.is_loop_header(
                w.cur,
                f.universe,
                f.idom,
                f.entry,
                cx.loops,
            ) || self.retry.contains(w.cur)) {
                let (r, s) = self.loop_region(cx, w.st, f, w.cur);
                let w2 = w1.with(s).push(r);
                self.lemma_leave_loop_extends(cx, f, w2, r);
                assert(w2.parts[0] == r);
                assert(v[0] == r);
            } else if self.roots.dom().contains(w.cur) && self.folds.dom().contains(self.roots[w.cur]) {
                assert(v[0] == (Tree::Basic { block: w.cur }));
            } else {
                self.lemma_term_extends(cx, f, w1);
            },
        }
    }

    /// The walk takes its first block: it is in the scope, no boundary, and
    /// free, or the walk may enter it though claimed.
    pub open spec fn can_start(self, cx: Cx, st: St, entry: usize, universe: Set<usize>, stop: Set<usize>, allow: bool) -> bool {
        &&& cx.depth < 256
        &&& st.visits > 0
        &&& universe.contains(entry)
        &&& !stop.contains(entry)
        &&& !st.claimed.contains(entry) || allow
    }

    /// A walk begins with the block it starts from.
    pub proof fn law_walk_begins(
        self,
        cx: Cx,
        st: St,
        entry: usize,
        universe: Set<usize>,
        stop: Set<usize>,
        active: Seq<usize>,
        allow: bool,
    )
        requires
            self.can_start(cx, st, entry, universe, stop, allow),
            self.shows(entry),
        ensures
            self.begins(self.walk(cx, st, entry, universe, stop, active, allow).0, entry),
    {
        let c = cx.deeper();
        let f = Frame {
            entry,
            universe,
            stop,
            active,
            allow,
            pre: st.visited().claimed.contains(entry),
            idom: dominators::dom_of(self.cfg, universe, entry),
        };
        let w = self.at_start(f, st.visited().counted());
        let w1 = self.step(c, f, w);
        self.lemma_first_step(c, f, w);
        assert(self.run(c, f, w, 100_000) == self.run(c, f, w1, 99_999));
        self.lemma_run_keeps(c, f, w1, 99_999, entry);
        let end = self.run(c, f, w, 100_000);
        assert(self.walk(cx, st, entry, universe, stop, active, allow) == (region::joined(end.parts), end.st));
    }

    /// Whatever the state, the region of a walk begins at the block it starts
    /// from, or is the jump there, or nothing.
    pub proof fn law_walk_leads(
        self,
        cx: Cx,
        st: St,
        entry: usize,
        universe: Set<usize>,
        stop: Set<usize>,
        active: Seq<usize>,
        allow: bool,
    )
        requires
            self.shows(entry),
        ensures
            self.heads_to(self.walk(cx, st, entry, universe, stop, active, allow).0, entry),
    {
        if self.can_start(cx, st, entry, universe, stop, allow) {
            self.law_walk_begins(cx, st, entry, universe, stop, active, allow);
        } else if cx.depth < 256 && st.visits > 0 && universe.contains(entry) {
            let c = cx.deeper();
            let f = Frame {
                entry,
                universe,
                stop,
                active,
                allow,
                pre: st.visited().claimed.contains(entry),
                idom: dominators::dom_of(self.cfg, universe, entry),
            };
            let w = self.at_start(f, st.visited().counted());
            let end = self.run(c, f, w, 100_000);
            assert(self.walk(cx, st, entry, universe, stop, active, allow) == (region::joined(end.parts), end.st));
            if !stop.contains(entry) {
                let w1 = self.step(c, f, w);
                assert(w1 == self.arrive(c, f, w).end());
                assert(self.run(c, f, w, 100_000) == self.run(c, f, w1, 99_999));
                assert(self.run(c, f, w1, 99_999) == w1);
            }
        }
    }

    // -- copies ------------------------------------------------------------------------

    /// A copy begins where it was asked for, or is the jump there, or nothing.
    pub proof fn law_copy_leads(self, cx: Cx, st: St, t: usize, stop: Set<usize>, active: Seq<usize>, guard: usize)
        requires
            self.shows(t),
        ensures
            self.heads_to(self.copy_or_jump(cx, st, t, stop, active, guard).0, t),
            self.heads_to(self.boundary_branch(cx, st, t, stop, active, guard).0, t),
    {
        self.lemma_copy_leads(cx, st, t, stop, active, guard);
        self.lemma_copy_leads(cx, st, t, stop.remove(t), active, guard);
    }

    proof fn lemma_copy_leads(self, cx: Cx, st: St, t: usize, stop: Set<usize>, active: Seq<usize>, guard: usize)
        requires
            self.shows(t),
        ensures
            self.heads_to(self.copy_or_jump(cx, st, t, stop, active, guard).0, t),
    {
        let tu = self.reach_within(t, self.copy_bars(cx, t, stop, guard));
        let (scope, groups) = self.copy_scope(tu, active, 0);
        self.law_walk_leads(cx.copying(), st.spent().with_claimed(Set::empty()), t, scope, stop, groups, true);
    }

    // -- branches ----------------------------------------------------------------------

    /// The two sides of a branch are the two ways out of its block: the taken
    /// side leads to the second successor, the other to the first.
    pub proof fn law_branch_sides(self, cx: Cx, st: St, f: Frame, br: Branch)
        ensures
            self.shows(br.taken) ==> self.heads_to(self.then_side(cx, st, f, br).0, br.taken),
            self.shows(br.fall) && !self.parks(cx, st, f, br) ==> self.heads_to(self.else_side(cx, st, f, br).0, br.fall),
    {
        if self.shows(br.taken) {
            self.lemma_then_leads(cx, st, f, br);
        }
        if self.shows(br.fall) && !self.parks(cx, st, f, br) {
            self.lemma_else_leads(cx, st, f, br);
        }
    }

    proof fn lemma_walk_branch_leads(self, cx: Cx, st: St, f: Frame, t: usize, bstop: Set<usize>)
        requires
            self.shows(t),
        ensures
            self.heads_to(self.walk_branch(cx, st, f, t, bstop).0, t),
    {
        let scope = self.owner_scope(t, f.universe, st.structuring);
        let sub = self.restricted(self.sub_scope(t, scope, bstop, st.claimed), f.entry, cx.loops);
        self.law_walk_leads(cx, st, t, sub, bstop, f.active, false);
    }

    proof fn lemma_then_leads(self, cx: Cx, st: St, f: Frame, br: Branch)
        requires
            self.shows(br.taken),
        ensures
            self.heads_to(self.then_side(cx, st, f, br).0, br.taken),
    {
        let t = br.taken;
        self.law_copy_leads(cx, st, t, br.bstop, f.active, br.cur);
        self.lemma_walk_branch_leads(cx, st, f, t, br.bstop);
    }

    proof fn lemma_else_leads(self, cx: Cx, st: St, f: Frame, br: Branch)
        requires
            self.shows(br.fall),
            !self.parks(cx, st, f, br),
        ensures
            self.heads_to(self.else_side(cx, st, f, br).0, br.fall),
    {
        let t = br.fall;
        self.law_copy_leads(cx, st, t, br.bstop, f.active, br.cur);
        self.lemma_walk_branch_leads(cx, st, f, t, br.bstop);
    }

    /// A side that can be walked holds its code: it begins at its block.
    pub proof fn law_walked_side(self, cx: Cx, st: St, f: Frame, br: Branch)
        requires
            cx.depth < 256,
            st.visits > 0,
            !self.is_handler(f.entry),
        ensures
            self.shows(br.taken) && br.follow != Some(br.taken) && self.enters(st, f, br.taken, br.bstop) ==> self.begins(
                self.then_side(cx, st, f, br).0,
                br.taken,
            ),
            self.shows(br.fall) && br.follow != Some(br.fall) && self.enters(st, f, br.fall, br.bstop) && !self.parks(cx, st, f, br)
                ==> self.begins(self.else_side(cx, st, f, br).0, br.fall),
    {
        let t = br.taken;
        if self.shows(t) && self.enters(st, f, t, br.bstop) {
            let scope = self.owner_scope(t, f.universe, st.structuring);
            let sub = self.restricted(self.sub_scope(t, scope, br.bstop, st.claimed), f.entry, cx.loops);
            assert(sub.contains(t));
            self.law_walk_begins(cx, st, t, sub, br.bstop, f.active, false);
        }
        let u = br.fall;
        if self.shows(u) && self.enters(st, f, u, br.bstop) {
            let scope = self.owner_scope(u, f.universe, st.structuring);
            let sub = self.restricted(self.sub_scope(u, scope, br.bstop, st.claimed), f.entry, cx.loops);
            assert(sub.contains(u));
            self.law_walk_begins(cx, st, u, sub, br.bstop, f.active, false);
        }
    }

    // -- try regions -------------------------------------------------------------------

    proof fn lemma_unjumped_begins(self, r: Tree, pc: u32, b: usize)
        requires
            self.begins(r, b),
        ensures
            self.begins(self.unjumped(r, pc), b),
        decreases r,
    {
        match r {
            Tree::Sequence(v) => {
                if v.len() == 1 {
                    self.lemma_unjumped_begins(v[0], pc, b);
                }
            },
            _ => {},
        }
    }

    proof fn lemma_stripped_begins(self, r: Tree, target: usize, seen: Set<usize>, b: usize)
        requires
            self.begins(r, b),
        ensures
            self.begins(self.stripped(r, target, seen).0, b),
        decreases r,
    {
        match r {
            Tree::Sequence(v) => {
                if v.len() == 1 {
                    self.lemma_stripped_begins(v[0], target, seen, b);
                }
            },
            _ => {},
        }
    }

    /// Some handler of the list catches the type at the block.
    pub open spec fn typed_at(self, hs: Seq<(u32, Option<Seq<char>>)>, t: Seq<char>, b: usize) -> bool {
        exists|k: int| 0 <= k < hs.len() && (#[trigger] hs[k]).1 == Some(t) && self.cfg.at(hs[k].0) == Some(b)
    }

    /// Some catch stands at the handler's block, and lists its type.
    pub open spec fn caught(self, v: Seq<(Seq<Seq<char>>, usize)>, h: (u32, Option<Seq<char>>)) -> bool {
        exists|i: int|
            0 <= i < v.len() && Some((#[trigger] v[i]).1) == self.cfg.at(h.0) && (h.1 matches Some(t) ==> v[i].0.contains(t))
    }

    /// The handler is at a block that the group owns.
    pub open spec fn owned(self, h: (u32, Option<Seq<char>>), gi: usize) -> bool {
        self.cfg.at(h.0) is Some && self.handles(self.cfg.at(h.0)->0, gi)
    }

    /// The catches stand for the handlers: each handler that the group owns
    /// has a catch, and a catch lists no type but those of handlers at its
    /// block.
    pub open spec fn catch_for(self, v: Seq<(Seq<Seq<char>>, usize)>, hs: Seq<(u32, Option<Seq<char>>)>, gi: usize) -> bool {
        &&& forall|k: int| 0 <= k < hs.len() && self.owned(#[trigger] hs[k], gi) ==> self.caught(v, hs[k])
        &&& forall|i: int| 0 <= i < v.len() ==> self.handles((#[trigger] v[i]).1, gi)
        &&& forall|i: int, j: int|
            0 <= i < v.len() && 0 <= j < v[i].0.len() ==> self.typed_at(hs, #[trigger] v[i].0[j], v[i].1)
    }

    /// The catches of a group stand for its handlers.
    pub proof fn law_merged_handlers(self, gi: usize)
        ensures
            self.catch_for(self.merged_handlers(gi), self.groups[gi as int].handlers, gi),
    {
        let hs = self.groups[gi as int].handlers;
        self.lemma_handlers_upto(gi, hs.len());
        assert(hs.take(hs.len() as int) =~= hs);
    }

    proof fn lemma_handlers_upto(self, gi: usize, k: nat)
        requires
            k <= self.groups[gi as int].handlers.len(),
        ensures
            self.catch_for(self.handlers_upto(gi, k), self.groups[gi as int].handlers.take(k as int), gi),
        decreases k,
    {
        let all = self.groups[gi as int].handlers;
        if k > 0 {
            let n = (k - 1) as nat;
            self.lemma_handlers_upto(gi, n);
            let v = self.handlers_upto(gi, n);
            let u = self.handlers_upto(gi, k);
            let a = all.take(n as int);
            let h = all[k - 1];
            assert(all.take(k as int) =~= a.push(h));
            if !self.owned(h, gi) {
                assert(u == v);
                self.lemma_one_more_handler(v, v, a, h, gi);
            } else {
                let hb = self.cfg.at(h.0)->0;
                if v.len() > 0 && v.last().1 == hb {
                    if h.1 is Some {
                        let more = (v.last().0.push(h.1->0), hb);
                        assert(u == v.drop_last().push(more));
                        assert(u =~= v.update(v.len() - 1, more));
                        assert(u[v.len() - 1].0[v.last().0.len() as int] == h.1->0);
                    } else {
                        assert(u == v);
                    }
                    assert(Some(u[v.len() - 1].1) == self.cfg.at(h.0));
                } else {
                    assert(u[v.len() as int].1 == hb);
                    if h.1 is Some {
                        assert(u[v.len() as int].0[0] == h.1->0);
                    }
                }
                assert(self.caught(u, h));
                assert forall|i: int, t: Seq<char>| 0 <= i < v.len() && #[trigger] v[i].0.contains(t) implies u[i].0.contains(t) by {
                    let x = choose|x: int| 0 <= x < v[i].0.len() && v[i].0[x] == t;
                    assert(u[i].0[x] == t);
                }
                self.lemma_one_more_handler(v, u, a, h, gi);
            }
        }
    }

    proof fn lemma_one_more_handler(
        self,
        v: Seq<(Seq<Seq<char>>, usize)>,
        u: Seq<(Seq<Seq<char>>, usize)>,
        a: Seq<(u32, Option<Seq<char>>)>,
        h: (u32, Option<Seq<char>>),
        gi: usize,
    )
        requires
            self.catch_for(v, a, gi),
            v.len() <= u.len(),
            self.owned(h, gi) ==> self.caught(u, h),
            forall|i: int| 0 <= i < v.len() ==> (#[trigger] u[i]).1 == v[i].1,
            forall|i: int, t: Seq<char>| 0 <= i < v.len() && #[trigger] v[i].0.contains(t) ==> u[i].0.contains(t),
            forall|i: int| v.len() <= i < u.len() ==> self.handles((#[trigger] u[i]).1, gi),
            forall|i: int, j: int|
                0 <= i < u.len() && 0 <= j < u[i].0.len() ==> (i < v.len() && j < v[i].0.len() && #[trigger] u[i].0[j] == v[i].0[j]) || (h.1
                    == Some(u[i].0[j]) && self.cfg.at(h.0) == Some(u[i].1)),
        ensures
            self.catch_for(u, a.push(h), gi),
    {
        let b = a.push(h);
        assert forall|k: int| 0 <= k < b.len() && self.owned(#[trigger] b[k], gi) implies self.caught(u, b[k]) by {
            if k < a.len() {
                assert(a[k] == b[k]);
                assert(self.caught(v, a[k]));
                let i = choose|i: int|
                    0 <= i < v.len() && Some((#[trigger] v[i]).1) == self.cfg.at(a[k].0) && (a[k].1 matches Some(t)
                        ==> v[i].0.contains(t));
                assert(u[i].1 == v[i].1);
            }
        }
        assert forall|i: int| 0 <= i < u.len() implies self.handles((#[trigger] u[i]).1, gi) by {
            if i < v.len() {
                assert(self.handles(v[i].1, gi));
            }
        }
        assert forall|i: int, j: int| 0 <= i < u.len() && 0 <= j < u[i].0.len() implies self.typed_at(
            b,
            #[trigger] u[i].0[j],
            u[i].1,
        ) by {
            let t = u[i].0[j];
            if i < v.len() && j < v[i].0.len() && t == v[i].0[j] {
                assert(self.typed_at(a, v[i].0[j], v[i].1));
                let k = choose|k: int| 0 <= k < a.len() && (#[trigger] a[k]).1 == Some(t) && self.cfg.at(a[k].0) == Some(v[i].1);
                assert(b[k] == a[k]);
            } else {
                assert(b[a.len() as int] == h);
            }
        }
    }

    /// What the region of one handler holds: the handler's own code, from its
    /// first block on.
    pub proof fn law_handler_region(self, cx: Cx, st: St, gi: usize, hb: usize, universe: Set<usize>, goes_on: bool)
        requires
            cx.depth < 256,
            st.visits > 0,
            !st.claimed.contains(hb),
            self.shows(hb),
        ensures
            self.begins(self.catch_region(cx, st, gi, hb, universe, goes_on).0, hb),
    {
        let hu = self.handler_scope(gi, hb, universe, st.claimed, goes_on, cx.loops);
        let active = self.handler_active(gi, hu, self.groups.len());
        self.law_walk_begins(cx, st, hb, hu, Set::empty(), active, false);
        let r = self.walk(cx, st, hb, hu, Set::empty(), active, false).0;
        self.lemma_unjumped_begins(r, self.groups[gi as int].end, hb);
    }

    /// The state in which the handler with number `k` of a try is reached.
    pub open spec fn before_handler(self, cx: Cx, st: St, gi: usize, universe: Set<usize>, stop: Set<usize>, k: nat) -> St {
        let st1 = St { structuring: st.structuring.push(gi), ..st };
        let (body, goes_on, st2) = self.try_body_region(cx, st1, gi, universe, stop);
        self.catches(cx, st2, gi, universe, goes_on, k).1
    }

    /// Every catch of a try holds the code of its own handler: where the
    /// handler's block is still free and has code, the catch begins there.
    pub proof fn law_catches_hold_their_handlers(self, cx: Cx, st: St, gi: usize, universe: Set<usize>, stop: Set<usize>)
        requires
            cx.depth < 256,
        ensures
            self.try_region(cx, st, gi, universe, stop).0 matches Tree::Try { catches, .. } && forall|k: int|
                0 <= k < catches.len() && self.shows((#[trigger] catches[k]).1) && !self.before_handler(
                    cx,
                    st,
                    gi,
                    universe,
                    stop,
                    k as nat,
                ).claimed.contains(catches[k].1) && self.before_handler(cx, st, gi, universe, stop, k as nat).visits > 0
                    ==> self.begins(catches[k].2, catches[k].1),
    {
        let st1 = St { structuring: st.structuring.push(gi), ..st };
        let (body, goes_on, st2) = self.try_body_region(cx, st1, gi, universe, stop);
        self.lemma_catches_begin(cx, st2, gi, universe, goes_on, self.merged_handlers(gi).len());
    }

    proof fn lemma_catches_begin(self, cx: Cx, st: St, gi: usize, universe: Set<usize>, goes_on: bool, k: nat)
        requires
            cx.depth < 256,
        ensures
            ({
                let v = self.catches(cx, st, gi, universe, goes_on, k).0;
                &&& v.len() == k
                &&& forall|i: int|
                    0 <= i < k && self.shows((#[trigger] v[i]).1) && !self.catches(
                        cx,
                        st,
                        gi,
                        universe,
                        goes_on,
                        i as nat,
                    ).1.claimed.contains(v[i].1) && self.catches(cx, st, gi, universe, goes_on, i as nat).1.visits > 0
                        ==> self.begins(v[i].2, v[i].1)
            }),
        decreases k,
    {
        if k > 0 {
            let j = (k - 1) as nat;
            self.lemma_catches_begin(cx, st, gi, universe, goes_on, j);
            let s = self.catches(cx, st, gi, universe, goes_on, j).1;
            let h = self.merged_handlers(gi)[k - 1];
            if self.shows(h.1) && !s.claimed.contains(h.1) && s.visits > 0 {
                self.law_handler_region(cx, s, gi, h.1, universe, goes_on);
            }
        }
    }

    /// The body of a try begins where the group starts, if its block there is
    /// free and in the body.
    pub proof fn law_try_body(self, cx: Cx, st: St, gi: usize, universe: Set<usize>, stop: Set<usize>, entry: usize)
        requires
            cx.depth < 256,
            st.visits > 0,
            self.cfg.at(self.groups[gi as int].start) == Some(entry),
            self.try_body(gi, universe, cx.loops).contains(entry),
            self.shows(entry),
        ensures
            self.begins(self.try_body_region(cx, st, gi, universe, stop).0, entry),
    {
        let body = self.try_body(gi, universe, cx.loops);
        let allow = st.claimed.contains(entry);
        self.law_walk_begins(cx, st, entry, body, Set::empty(), self.nested(gi), allow);
        let (r, s) = self.walk(cx, st, entry, body, Set::empty(), self.nested(gi), allow);
        match self.next_after(self.groups[gi as int].end, universe, s.claimed, stop, 0) {
            Some(c) => {
                self.lemma_stripped_begins(r, c, Set::empty(), entry);
            },
            None => {},
        }
    }

    // -- loops -------------------------------------------------------------------------

    /// The body of a loop begins with the loop's header.
    pub proof fn law_loop_body(self, cx: Cx, st: St, f: Frame, header: usize)
        requires
            cx.depth < 256,
            st.visits > 0,
            self.shows(header),
            !self.exit_set(self.loop_members(header, f.universe, f.stop, f.idom, cx.loops)).contains(header),
            !f.stop.contains(header),
        ensures
            self.loop_region(cx, st, f, header).0 matches Tree::Loop { header: h, body, .. } && h == header && self.begins(
                *body,
                header,
            ),
    {
        let members = self.loop_members(header, f.universe, f.stop, f.idom, cx.loops);
        self.law_members(header, f.universe, f.stop, f.idom, cx.loops, header);
        let inner_stop = f.stop.intersect(members).union(self.exit_set(members));
        self.law_walk_begins(cx.in_loop(header), st.counted().claim(header), header, members, inner_stop, f.active, true);
    }

    // -- switches ----------------------------------------------------------------------

    proof fn lemma_unfallen_begins(self, r: Tree, heads: Set<usize>, b: usize)
        requires
            self.begins(r, b),
        ensures
            self.begins(r.without_fallthrough(heads), b),
    {
        if let Tree::Sequence(v) = r {
            let w = if v.len() > 0 && (v[v.len() - 1] matches Tree::Goto { target } && heads.contains(target)) {
                v.drop_last()
            } else {
                v
            };
            if v.len() == 1 && v[0] is Goto {
                assert(!self.begins(v[0], b));
            }
            assert(v.len() > 1 || w == v);
            assert(w[0] == v[0]);
        }
    }

    proof fn lemma_bound_begins(self, r: Tree, follow: Option<usize>, b: usize)
        requires
            self.begins(r, b),
        ensures
            self.begins(self.bound_arm(r, follow), b),
    {
        if self.bound_arm(r, follow) != r {
            let v = seq![r, Tree::Goto { target: follow->0 }];
            assert(self.bound_arm(r, follow) == Tree::Sequence(v));
            assert(v[0] == r);
        }
    }

    proof fn lemma_arm_begins(
        self,
        cx: Cx,
        st: St,
        block: usize,
        b: usize,
        scope: Set<usize>,
        universe: Set<usize>,
        stop: Set<usize>,
        follow: Option<usize>,
        active: Seq<usize>,
        pattern: bool,
    )
        requires
            cx.depth < 256,
            st.visits > 0,
            universe.contains(b),
            !st.claimed.contains(b),
            scope.contains(b),
            self.shows(b),
        ensures
            self.begins(self.arm_region(cx, st, block, b, scope, universe, stop, follow, active, pattern).0, b),
    {
        let cstop = self.case_stop(block, follow, stop).remove(b);
        let inner = cx.in_arm(b, follow, pattern);
        self.law_walk_begins(inner, st, b, scope, cstop, active, false);
        let r = self.walk(inner, st, b, scope, cstop, active, false).0;
        self.lemma_unfallen_begins(r, self.arm_heads(block, follow), b);
        self.lemma_bound_begins(r.without_fallthrough(self.arm_heads(block, follow)), follow, b);
    }

    proof fn lemma_arm_leads(
        self,
        cx: Cx,
        st: St,
        block: usize,
        b: usize,
        scope: Set<usize>,
        universe: Set<usize>,
        stop: Set<usize>,
        follow: Option<usize>,
        active: Seq<usize>,
        pattern: bool,
    )
        requires
            self.shows(b),
            !universe.contains(b) || st.claimed.contains(b),
        ensures
            self.heads_to(self.arm_region(cx, st, block, b, scope, universe, stop, follow, active, pattern).0, b),
    {
        let cstop = self.case_stop(block, follow, stop).remove(b);
        self.law_copy_leads(cx, st, b, cstop, active, block);
    }

    /// Every arm of a switch holds the code of the block that its values lead
    /// to: a walked arm begins there, and one whose block stands elsewhere is
    /// a copy or a jump. Values that lead behind the switch jump there.
    pub proof fn law_arms_hold_their_blocks(
        self,
        cx: Cx,
        st: St,
        block: usize,
        universe: Set<usize>,
        stop: Set<usize>,
        follow: Option<usize>,
        active: Seq<usize>,
        pattern: bool,
        k: nat,
    )
        requires
            cx.depth < 256,
            k < self.case_groups(block, follow).len(),
        ensures
            ({
                let v = self.case_regions(cx, st, block, universe, stop, follow, active, pattern, k + 1).0;
                let s = self.case_regions(cx, st, block, universe, stop, follow, active, pattern, k).1;
                let c = self.case_groups(block, follow)[k as int];
                &&& c.is_follow ==> v[k as int].1 == (Tree::Goto { target: c.target })
                &&& !c.is_follow && self.shows(c.target) && universe.contains(c.target) && !s.claimed.contains(c.target)
                    && s.visits > 0 ==> self.begins(v[k as int].1, c.target)
                &&& !c.is_follow && self.shows(c.target) && (!universe.contains(c.target) || s.claimed.contains(c.target))
                    ==> self.heads_to(v[k as int].1, c.target)
            }),
    {
        let (v, s) = self.case_regions(cx, st, block, universe, stop, follow, active, pattern, k);
        self.lemma_regions_count(cx, st, block, universe, stop, follow, active, pattern, k);
        let c = self.case_groups(block, follow)[k as int];
        let b = c.target;
        let scope = self.sub_scope(b, universe, self.case_stop(block, follow, stop).remove(b), s.claimed);
        if self.shows(b) && universe.contains(b) && !s.claimed.contains(b) && s.visits > 0 {
            self.lemma_arm_begins(cx, s, block, b, scope, universe, stop, follow, active, pattern);
        }
        if self.shows(b) && (!universe.contains(b) || s.claimed.contains(b)) {
            self.lemma_arm_leads(cx, s, block, b, scope, universe, stop, follow, active, pattern);
        }
    }

    proof fn lemma_regions_count(
        self,
        cx: Cx,
        st: St,
        block: usize,
        universe: Set<usize>,
        stop: Set<usize>,
        follow: Option<usize>,
        active: Seq<usize>,
        pattern: bool,
        k: nat,
    )
        ensures
            self.case_regions(cx, st, block, universe, stop, follow, active, pattern, k).0.len() == k,
        decreases k,
    {
        if k > 0 {
            self.lemma_regions_count(cx, st, block, universe, stop, follow, active, pattern, (k - 1) as nat);
        }
    }
}

} // verus!
