//! What holds of every structuring walk.

use vstd::prelude::*;

use crate::ir::{Expr, Term};
use crate::structure::dominators;
use crate::structure::env::Env;
use crate::structure::model;
use crate::structure::model::{Cx, Frame, St, Ws};
use crate::structure::region;
use crate::structure::region::Tree;

verus! {

impl Env {
    // -- the guards ------------------------------------------------------------------

    /// Past the depth limit, or with no visits left, a walk is the jump to its
    /// entry and changes nothing.
    pub proof fn law_fallback(
        self,
        cx: Cx,
        st: St,
        entry: usize,
        universe: Set<usize>,
        stop: Set<usize>,
        active: Seq<usize>,
        allow: bool,
    )
        requires
            cx.depth >= 256 || st.visits == 0,
        ensures
            self.walk(cx, st, entry, universe, stop, active, allow) == (model::jump(entry), st),
    {
    }

    /// A walk whose entry is not in its scope makes nothing and spends one visit.
    pub proof fn law_entry_outside(
        self,
        cx: Cx,
        st: St,
        entry: usize,
        universe: Set<usize>,
        stop: Set<usize>,
        active: Seq<usize>,
        allow: bool,
    )
        requires
            cx.depth < 256,
            st.visits > 0,
            !universe.contains(entry),
        ensures
            self.walk(cx, st, entry, universe, stop, active, allow) == (Tree::Empty, st.visited()),
    {
    }

    /// Without a ticket no copy is made.
    pub proof fn law_no_ticket(self, cx: Cx, st: St, t: usize, stop: Set<usize>, active: Seq<usize>, guard: usize)
        requires
            st.budget == 0 || cx.copies >= 4,
        ensures
            self.copy_walk(cx, st, t, stop, active, guard) == (None::<Tree>, st),
            self.copy_or_jump(cx, st, t, stop, active, guard) == (model::jump(t), st),
    {
    }

    /// A copy claims nothing: what was claimed before it is claimed behind it.
    pub proof fn law_copy_claims(
        self,
        cx: Cx,
        st: St,
        t: usize,
        scope: Set<usize>,
        stop: Set<usize>,
        active: Seq<usize>,
        guard: usize,
    )
        ensures
            self.copy_walk(cx, st, t, stop, active, guard).1.claimed == st.claimed,
            self.copy_or_jump(cx, st, t, stop, active, guard).1.claimed == st.claimed,
            self.ticket_walk(cx, st, t, scope, stop, active).1.claimed == st.claimed,
    {
    }

    /// A walk that stands at a boundary or outside its scope is over.
    pub proof fn law_boundary(self, cx: Cx, f: Frame, w: Ws, fuel: nat)
        requires
            f.stop.contains(w.cur) || !f.universe.contains(w.cur),
        ensures
            self.run(cx, f, w, fuel) == w,
    {
    }

    // -- one block -------------------------------------------------------------------

    /// The walk takes the block: it was not claimed, and it has code.
    pub open spec fn takes(self, f: Frame, w: Ws) -> bool {
        &&& !w.st.claimed.contains(w.cur) || (w.first && f.allow)
        &&& w.first || !self.is_handler(w.cur) || f.active.len() > 0
        &&& self.cfg.len(w.cur) != 0
    }

    /// The try group that opens at the block the walk stands at.
    pub open spec fn opened(self, cx: Cx, f: Frame, w: Ws) -> Option<usize> {
        self.group_here(w.cur, f.universe, f.active, w.st.structuring, f.pre, f.idom, f.entry, cx.loops)
    }

    /// The block the walk stands at heads a loop.
    pub open spec fn heads_loop(self, cx: Cx, f: Frame, w: Ws) -> bool {
        &&& !self.at_claimed_entry(f, w)
        &&& self.is_loop_header(w.cur, f.universe, f.idom, f.entry, cx.loops) || self.retry.contains(w.cur)
    }

    /// The walk goes by the terminal of the block: no group opens there, it
    /// heads no loop, and it is no folded diamond.
    pub open spec fn by_terminal(self, cx: Cx, f: Frame, w: Ws) -> bool {
        &&& self.takes(f, w)
        &&& self.opened(cx, f, w) is None
        &&& !self.heads_loop(cx, f, w)
        &&& !(self.roots.dom().contains(w.cur) && self.folds.dom().contains(self.roots[w.cur]))
    }

    /// The two-way branch at the block is no pure value.
    pub open spec fn no_value(self, f: Frame, w: Ws) -> bool {
        let fall = self.succ(w.cur)[0];
        let taken = self.succ(w.cur)[1];
        let pre = self.at_claimed_entry(f, w);
        let w1 = Ws { first: false, ..w.with(w.st.claim(w.cur)) };
        let pd = self.branch_merge(f, w.cur, taken, fall);
        let bstop = self.with_follow(f.stop, self.branch_follow(f, w1, pd, pre));
        self.first_diamond(f, w1, taken, fall, bstop, self.diamond_merges(f, w1, taken, fall, pd), 0) is None
    }

    /// A block that returns, throws or ends in a subroutine jump is itself the
    /// next part, and the walk is over.
    pub proof fn law_method_end(self, cx: Cx, f: Frame, w: Ws)
        requires
            self.by_terminal(cx, f, w),
            self.term(w.cur).abrupt() || self.term(w.cur) is Ret || self.term(w.cur) is Jsr,
        ensures
            self.step(cx, f, w).parts == w.parts.push(Tree::Basic { block: w.cur }),
            self.step(cx, f, w).done,
            self.step(cx, f, w).st == w.st.claim(w.cur),
    {
    }

    /// The frame of the walk over the whole method.
    pub open spec fn method_frame(self, st: St) -> Frame {
        Frame {
            entry: self.cfg.entry,
            universe: self.code_blocks(),
            stop: Set::empty(),
            active: self.top_groups(self.groups.len()),
            allow: true,
            pre: st.claimed.contains(self.cfg.entry),
            idom: dominators::dom_of(self.cfg, self.code_blocks(), self.cfg.entry),
        }
    }

    /// A method whose entry block returns, throws or ends in a subroutine jump
    /// is that block alone.
    pub proof fn law_ends_at_entry(self, cx: Cx, st: St)
        requires
            cx.depth < 256,
            st.visits > 0,
            self.code_blocks().contains(self.cfg.entry),
            self.by_terminal(cx.deeper(), self.method_frame(st), self.at_start(self.method_frame(st), st.visited().counted())),
            self.term(self.cfg.entry).abrupt() || self.term(self.cfg.entry) is Ret || self.term(self.cfg.entry) is Jsr,
        ensures
            self.method_region(cx, st) == (Tree::Basic { block: self.cfg.entry }, st.visited().counted().claim(self.cfg.entry)),
    {
        let f = self.method_frame(st);
        let w = self.at_start(f, st.visited().counted());
        self.law_method_end(cx.deeper(), f, w);
        let w1 = self.step(cx.deeper(), f, w);
        assert(self.run(cx.deeper(), f, w, 100_000) == self.run(cx.deeper(), f, w1, 99_999));
        assert(self.run(cx.deeper(), f, w1, 99_999) == w1);
    }

    /// A jump or fall-through into the scope: the block is the next part, and
    /// the walk goes on at its successor.
    pub proof fn law_goes_on(self, cx: Cx, f: Frame, w: Ws)
        requires
            self.by_terminal(cx, f, w),
            self.term(w.cur).plain(),
            self.succ(w.cur).len() > 0,
            w.can_enter(f, self.succ(w.cur)[0]),
            self.succ(w.cur)[0] != w.cur,
            !self.is_handler(self.succ(w.cur)[0]),
            !w.done,
        ensures
            self.step(cx, f, w).parts == w.parts.push(Tree::Basic { block: w.cur }),
            self.step(cx, f, w).cur == self.succ(w.cur)[0],
            !self.step(cx, f, w).done,
    {
    }

    /// A jump or fall-through to a boundary: the block and the jump are the
    /// next parts, and the walk is over.
    pub proof fn law_leaves(self, cx: Cx, f: Frame, w: Ws)
        requires
            self.by_terminal(cx, f, w),
            self.term(w.cur).plain(),
            self.succ(w.cur).len() > 0,
            f.stop.contains(self.succ(w.cur)[0]),
            !self.is_handler(self.succ(w.cur)[0]),
        ensures
            self.step(cx, f, w).parts == w.parts.push(Tree::Basic { block: w.cur }).push(
                model::jump(self.succ(w.cur)[0]),
            ),
            self.step(cx, f, w).done,
            self.step(cx, f, w).st == w.st.claim(w.cur),
    {
    }

    /// A two-way branch that is no pure value makes a branch region with its
    /// condition.
    pub proof fn law_branch(self, cx: Cx, f: Frame, w: Ws, cond: Expr)
        requires
            self.by_terminal(cx, f, w),
            self.term(w.cur) matches Term::Cond { cond: c } && *c == cond,
            self.succ(w.cur).len() == 2,
            self.no_value(f, w),
        ensures
            ({
                let v = self.step(cx, f, w).parts;
                let r = v[w.parts.len() as int];
                region::goes_on_with(v, w.parts, r) && (r matches Tree::If { block, cond: c, .. } && block == w.cur && c == cond)
            }),
    {
        let w1 = Ws { first: false, ..w.with(w.st.claim(w.cur)) };
        let pre = self.at_claimed_entry(f, w);
        let fall = self.succ(w.cur)[0];
        let taken = self.succ(w.cur)[1];
        let pd = self.branch_merge(f, w.cur, taken, fall);
        let follow = self.branch_follow(f, w1, pd, pre);
        let fo = if follow is None {
            self.stub_follow(cx, f, w1, taken, fall)
        } else {
            follow
        };
        let br = model::Branch { cur: w.cur, taken, fall, follow: fo, bstop: self.with_follow(f.stop, fo) };
        assert(self.step(cx, f, w) == self.branch_step(cx, f, w1, cond, br));
        let (then_r, s1) = self.then_side(cx, w1.st, f, br);
        let (else_r, s2) = self.else_side(cx, s1, f, br);
        let values = self.value_sides(then_r, else_r, br.follow);
        let s3 = match values {
            Some((a, b)) => s2.claim(a).claim(b),
            None => s2,
        };
        let r = Tree::If {
            block: w.cur,
            cond,
            then_r: Box::new(then_r),
            else_r: Box::new(else_r),
            follow: br.follow,
            ternary: match values {
                Some((a, b)) => Some((self.value_of(a), self.value_of(b))),
                None => None,
            },
        };
        let w2 = w1.with(s3).push(r);
        assert(self.branch_step(cx, f, w1, cond, br) == self.after_branch(cx, f, w2, br.follow));
        assert(w2.parts.take(w.parts.len() as int) =~= w.parts);
        let v = self.after_branch(cx, f, w2, br.follow).parts;
        assert(v.len() >= w2.parts.len() && v.take(w2.parts.len() as int) =~= w2.parts);
        assert(v[w.parts.len() as int] == v.take(w2.parts.len() as int)[w.parts.len() as int]);
        assert(v.take(w.parts.len() as int) =~= w.parts) by {
            assert forall|i: int| 0 <= i < w.parts.len() implies v[i] == w.parts[i] by {
                assert(v[i] == v.take(w2.parts.len() as int)[i]);
            }
        }
    }

    /// A switch makes a switch region with its selector.
    pub proof fn law_switch(self, cx: Cx, f: Frame, w: Ws, selector: Expr)
        requires
            self.by_terminal(cx, f, w),
            self.term(w.cur) matches Term::Switch { selector: s, .. } && *s == selector,
        ensures
            ({
                let v = self.step(cx, f, w).parts;
                let r = v[w.parts.len() as int];
                region::goes_on_with(v, w.parts, r) && (r matches Tree::Switch { block, selector: s, .. } && block == w.cur && s
                    == selector)
            }),
    {
        let w1 = Ws { first: false, ..w.with(w.st.claim(w.cur)) };
        let follow = self.cases_follow(f, w.cur);
        let (r, s) = self.bound_switch(cx, f, w1, selector, follow);
        let v = self.step(cx, f, w).parts;
        assert(self.step(cx, f, w) == self.switch_step(cx, f, w1, selector));
        assert(v.take(w.parts.len() as int) =~= w.parts);
        assert(v[w.parts.len() as int] == r);
    }

    /// Every group of cases has its arm, under its own values; the default has
    /// its arm where there is one.
    pub proof fn law_switch_arms(
        self,
        cx: Cx,
        st: St,
        block: usize,
        selector: Expr,
        universe: Set<usize>,
        stop: Set<usize>,
        follow: Option<usize>,
        active: Seq<usize>,
    )
        ensures
            self.switch_region(cx, st, block, selector, universe, stop, follow, active).0 matches Tree::Switch {
                cases,
                default,
                ..
            } && {
                &&& cases.len() == self.case_groups(block, follow).len()
                &&& forall|k: int|
                    0 <= k < cases.len() ==> (#[trigger] cases[k]).0 == self.case_groups(block, follow)[k].vals
                &&& default is Some == self.default_block(block, follow) is Some
            },
    {
        let n = self.case_groups(block, follow).len();
        self.lemma_case_arms(
            cx,
            st,
            block,
            universe,
            stop,
            follow,
            active,
            crate::structure::cases::is_pattern_selector(selector),
            n,
        );
    }

    proof fn lemma_case_arms(
        self,
        cx: Cx,
        st: St,
        block: usize,
        universe: Set<usize>,
        stop: Set<usize>,
        follow: Option<usize>,
        active: Seq<usize>,
        pattern: bool,
        k: nat,
    )
        ensures
            ({
                let v = self.case_regions(cx, st, block, universe, stop, follow, active, pattern, k).0;
                v.len() == k && forall|i: int|
                    0 <= i < k ==> (#[trigger] v[i]).0 == self.case_groups(block, follow)[i].vals
            }),
        decreases k,
    {
        if k > 0 {
            self.lemma_case_arms(cx, st, block, universe, stop, follow, active, pattern, (k - 1) as nat);
        }
    }

    // -- try groups ------------------------------------------------------------------

    /// Where a group opens, the next part is its try region: one catch for
    /// each of its merged handlers, with the handler's types, in order.
    pub proof fn law_try(self, cx: Cx, f: Frame, w: Ws, gi: usize)
        requires
            self.takes(f, w),
            self.opened(cx, f, w) == Some(gi),
        ensures
            self.step(cx, f, w).parts.drop_last() == w.parts,
            self.step(cx, f, w).parts.last() matches Tree::Try { group_idx, catches, .. } && {
                &&& group_idx == gi
                &&& catches.len() == self.merged_handlers(gi).len()
                &&& forall|k: int|
                    0 <= k < catches.len() ==> ((#[trigger] catches[k]).0, catches[k].1) == self.merged_handlers(gi)[k]
            },
    {
        let w1 = Ws { first: false, ..w };
        assert(self.step(cx, f, w) == self.try_step(cx, f, w1, gi));
        let (r, s) = self.try_region(cx, w1.st, gi, f.universe, f.stop);
        assert(self.step(cx, f, w).parts == w.parts.push(r));
        assert(w.parts.push(r).drop_last() =~= w.parts);
        let st1 = St { structuring: w.st.structuring.push(gi), ..w.st };
        let (body, goes_on, st2) = self.try_body_region(cx, st1, gi, f.universe, f.stop);
        self.lemma_catches(cx, st2, gi, f.universe, goes_on, self.merged_handlers(gi).len());
    }

    proof fn lemma_catches(self, cx: Cx, st: St, gi: usize, universe: Set<usize>, goes_on: bool, k: nat)
        requires
            k <= self.merged_handlers(gi).len(),
        ensures
            ({
                let v = self.catches(cx, st, gi, universe, goes_on, k).0;
                v.len() == k && forall|i: int|
                    0 <= i < k ==> ((#[trigger] v[i]).0, v[i].1) == self.merged_handlers(gi)[i]
            }),
        decreases k,
    {
        if k > 0 {
            self.lemma_catches(cx, st, gi, universe, goes_on, (k - 1) as nat);
        }
    }

    /// A group that is being structured opens again only where the walk
    /// offers it.
    pub proof fn law_not_reopened(self, b: usize, active: Seq<usize>, structuring: Seq<usize>, gi: usize)
        requires
            self.opening_group(b, active, structuring) == Some(gi),
        ensures
            self.opens(gi, b),
            active.contains(gi) || !structuring.contains(gi),
            !self.is_handler(b),
    {
        self.lemma_listed(active, b, 0);
        self.lemma_widest(b, structuring, self.groups.len());
    }

    proof fn lemma_listed(self, active: Seq<usize>, b: usize, k: nat)
        ensures
            self.listed_group(active, b, k) matches Some(g) ==> active.contains(g) && self.opens(g, b),
        decreases active.len() - k,
    {
        if k < active.len() {
            self.lemma_listed(active, b, k + 1);
        }
    }

    proof fn lemma_widest(self, b: usize, structuring: Seq<usize>, k: nat)
        ensures
            self.widest_group(b, structuring, k) matches Some(g) ==> self.opens(g, b) && !structuring.contains(g),
        decreases k,
    {
        if k > 0 {
            self.lemma_widest(b, structuring, (k - 1) as nat);
        }
    }

    // -- loops -----------------------------------------------------------------------

    /// Where the block heads a loop, the walk makes the loop's region: it is
    /// the next part, or the body of a loop that takes the block before in.
    pub proof fn law_loop(self, cx: Cx, f: Frame, w: Ws)
        requires
            self.takes(f, w),
            self.opened(cx, f, w) is None,
            self.heads_loop(cx, f, w),
        ensures
            ({
                let v = self.step(cx, f, w).parts;
                let r = self.loop_region(cx, w.st, f, w.cur).0;
                &&& r is Loop && r->Loop_header == w.cur
                &&& region::goes_on_with(v, w.parts, r) || (w.parts.len() > 0 && v.len() == w.parts.len() && v.drop_last()
                    == w.parts.drop_last() && (v.last() matches Tree::Loop { body, .. } && *body == Tree::Sequence(
                    seq![w.parts.last(), r],
                )))
            }),
    {
        let w1 = Ws { first: false, ..w };
        let v = self.step(cx, f, w).parts;
        let (r, s) = self.loop_region(cx, w.st, f, w.cur);
        assert(self.step(cx, f, w) == self.loop_step(cx, f, w1));
        let next = if self.body_done(r) {
            None
        } else {
            self.next_after_loop(r, f.universe, f.stop, cx.loops)
        };
        if next is Some && self.rotates(w1, r, s, next->0) {
            assert(v == w.parts.drop_last().push(self.rotated(w1, r, next->0)));
            assert(v.drop_last() =~= w.parts.drop_last());
        } else {
            assert(v.len() > w.parts.len());
            assert(v.take(w.parts.len() as int) =~= w.parts);
            assert(v[w.parts.len() as int] == r);
        }
    }

    /// The header is a member of its loop. Every other member lies in the
    /// scope, is no boundary and heads no loop around, and the header
    /// dominates it.
    pub proof fn law_members(self, header: usize, universe: Set<usize>, stop: Set<usize>, idom: Seq<usize>, loops: Seq<usize>, m: usize)
        ensures
            self.loop_members(header, universe, stop, idom, loops).contains(header),
            self.loop_members(header, universe, stop, idom, loops).contains(m) && m != header ==> {
                &&& m < self.n()
                &&& universe.contains(m)
                &&& !stop.contains(m)
                &&& !loops.contains(m)
                &&& dominators::is_above(idom, header, m)
            },
    {
        let start = Set::<usize>::empty().insert(header);
        self.lemma_gathered(header, seq![header], start, universe, stop, idom, loops);
        assert(start.contains(header));
    }

    /// What the search adds to the members meets the conditions of a member.
    pub open spec fn grown(
        self,
        header: usize,
        a: Set<usize>,
        b: Set<usize>,
        universe: Set<usize>,
        stop: Set<usize>,
        idom: Seq<usize>,
        loops: Seq<usize>,
    ) -> bool {
        &&& a.subset_of(b)
        &&& forall|m: usize|
            #[trigger] b.contains(m) && !a.contains(m) ==> m < self.n() && universe.contains(m) && !stop.contains(m)
                && !loops.contains(m) && dominators::is_above(idom, header, m)
    }

    proof fn lemma_joined(
        self,
        header: usize,
        list: Seq<usize>,
        k: nat,
        q: Seq<usize>,
        members: Set<usize>,
        universe: Set<usize>,
        stop: Set<usize>,
        idom: Seq<usize>,
        loops: Seq<usize>,
    )
        ensures
            self.grown(
                header,
                members,
                self.join_from(header, list, k, q, members, universe, stop, idom, loops).1,
                universe,
                stop,
                idom,
                loops,
            ),
        decreases list.len() - k,
    {
        if k < list.len() {
            let s = list[k as int];
            if s < self.n() && !members.contains(s) && self.joins(header, s, members, universe, stop, idom, loops) {
                self.lemma_joined(header, list, k + 1, q.push(s), members.insert(s), universe, stop, idom, loops);
                assert(!loops.contains(s)) by {
                    if loops.contains(s) {
                        assert(loops.to_set().contains(s));
                    }
                }
                assert(members.subset_of(members.insert(s)));
            } else {
                self.lemma_joined(header, list, k + 1, q, members, universe, stop, idom, loops);
            }
        }
    }

    proof fn lemma_gathered(
        self,
        header: usize,
        q: Seq<usize>,
        members: Set<usize>,
        universe: Set<usize>,
        stop: Set<usize>,
        idom: Seq<usize>,
        loops: Seq<usize>,
    )
        ensures
            self.grown(
                header,
                members,
                self.gathered(header, q, members, universe, stop, idom, loops),
                universe,
                stop,
                idom,
                loops,
            ),
        decreases crate::structure::graph::unseen(self.n(), members), q.len(),
    {
        if q.len() > 0 && self.n() <= usize::MAX {
            let (q2, m2) = self.join_from(header, self.succ(q[0]), 0, q.skip(1), members, universe, stop, idom, loops);
            self.lemma_join_from(header, self.succ(q[0]), 0, q.skip(1), members, universe, stop, idom, loops);
            self.lemma_joined(header, self.succ(q[0]), 0, q.skip(1), members, universe, stop, idom, loops);
            self.lemma_gathered(header, q2, m2, universe, stop, idom, loops);
        }
    }

    /// Behind a loop the walk goes on at one of the exits, in the scope and at
    /// no boundary.
    pub proof fn law_after_loop(self, r: Tree, universe: Set<usize>, stop: Set<usize>, loops: Seq<usize>, x: usize)
        requires
            self.next_after_loop(r, universe, stop, loops) == Some(x),
        ensures
            r is Loop,
            r->Loop_exits.contains(x),
            universe.contains(x),
            !stop.contains(x),
    {
        self.lemma_first_exit(r->Loop_exits, universe, stop, loops, r->Loop_exits.len());
    }

    proof fn lemma_first_exit(self, exits: Seq<usize>, universe: Set<usize>, stop: Set<usize>, loops: Seq<usize>, k: nat)
        requires
            k <= exits.len(),
        ensures
            self.first_exit(exits, universe, stop, loops, k) matches Some(x) ==> exits.contains(x) && universe.contains(x)
                && !stop.contains(x),
        decreases k,
    {
        if k > 0 {
            self.lemma_first_exit(exits, universe, stop, loops, (k - 1) as nat);
            assert(exits.contains(exits[k - 1]));
        }
    }

    /// A set of blocks put in order: each of them once, by where they start.
    pub proof fn law_ordered(self, s: Set<usize>)
        requires
            self.n() <= usize::MAX,
        ensures
            forall|x: usize| #[trigger] self.ordered(s).contains(x) <==> s.contains(x) && x < self.n(),
            self.ordered(s).no_duplicates(),
            forall|i: int, j: int|
                0 <= i < j < self.ordered(s).len() ==> self.start(#[trigger] self.ordered(s)[i]) <= self.start(
                    #[trigger] self.ordered(s)[j],
                ),
    {
        self.lemma_ordered(s, self.n());
    }

    proof fn lemma_ordered(self, s: Set<usize>, k: nat)
        requires
            k <= self.n() <= usize::MAX,
        ensures
            ({
                let v = self.ordered_upto(s, k);
                &&& forall|x: usize| #[trigger] v.contains(x) <==> s.contains(x) && x < k
                &&& v.no_duplicates()
                &&& forall|i: int, j: int| 0 <= i < j < v.len() ==> self.start(#[trigger] v[i]) <= self.start(#[trigger] v[j])
            }),
        decreases k,
    {
        if k > 0 {
            self.lemma_ordered(s, (k - 1) as nat);
            if s.contains((k - 1) as usize) {
                self.lemma_put(self.ordered_upto(s, (k - 1) as nat), (k - 1) as usize);
            }
        }
    }

    proof fn lemma_put(self, v: Seq<usize>, b: usize)
        requires
            !v.contains(b),
            v.no_duplicates(),
            forall|i: int, j: int| 0 <= i < j < v.len() ==> self.start(#[trigger] v[i]) <= self.start(#[trigger] v[j]),
        ensures
            ({
                let u = self.placed(v, b);
                &&& forall|x: usize| #[trigger] u.contains(x) <==> v.contains(x) || x == b
                &&& u.no_duplicates()
                &&& forall|i: int, j: int| 0 <= i < j < u.len() ==> self.start(#[trigger] u[i]) <= self.start(#[trigger] u[j])
            }),
        decreases v.len(),
    {
        let u = self.placed(v, b);
        if v.len() == 0 || self.start(v[v.len() - 1]) <= self.start(b) {
            assert forall|x: usize| #[trigger] u.contains(x) <==> v.contains(x) || x == b by {
                if v.contains(x) {
                    let i = choose|i: int| 0 <= i < v.len() && v[i] == x;
                    assert(u[i] == x);
                }
                assert(u[v.len() as int] == b);
            }
        } else {
            let d = v.drop_last();
            let z = v[v.len() - 1];
            assert forall|x: usize| #[trigger] v.contains(x) <==> d.contains(x) || x == z by {
                if v.contains(x) {
                    let i = choose|i: int| 0 <= i < v.len() && v[i] == x;
                    if i < v.len() - 1 {
                        assert(d[i] == x);
                    }
                }
                if d.contains(x) {
                    let i = choose|i: int| 0 <= i < d.len() && d[i] == x;
                    assert(v[i] == x);
                }
            }
            assert(!d.contains(z)) by {
                if d.contains(z) {
                    let i = choose|i: int| 0 <= i < d.len() && d[i] == z;
                    assert(v[i] == v[v.len() - 1]);
                }
            }
            self.lemma_put(d, b);
            let p = self.placed(d, b);
            assert(u == p.push(z));
            assert forall|x: usize| #[trigger] u.contains(x) <==> v.contains(x) || x == b by {
                if p.contains(x) {
                    let i = choose|i: int| 0 <= i < p.len() && p[i] == x;
                    assert(u[i] == x);
                }
                assert(u[p.len() as int] == z);
                if u.contains(x) {
                    let i = choose|i: int| 0 <= i < u.len() && u[i] == x;
                    if i < p.len() {
                        assert(p[i] == x);
                    }
                }
            }
            assert(!p.contains(z));
            assert forall|i: int| 0 <= i < p.len() implies self.start(#[trigger] p[i]) <= self.start(z) by {
                assert(p.contains(p[i]));
                if d.contains(p[i]) {
                    let j = choose|j: int| 0 <= j < d.len() && d[j] == p[i];
                    assert(v[j] == p[i]);
                }
            }
            assert forall|i: int, j: int| 0 <= i < j < u.len() implies self.start(#[trigger] u[i]) <= self.start(
                #[trigger] u[j],
            ) by {
                if j < p.len() {
                    assert(u[i] == p[i] && u[j] == p[j]);
                } else {
                    assert(u[i] == p[i]);
                }
            }
        }
    }
}

} // verus!
