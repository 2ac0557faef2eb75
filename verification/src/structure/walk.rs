//! The structuring walk.

use std::collections::HashSet;
use std::time::Instant;

use vstd::prelude::*;

use crate::ir;
use crate::ir::Term;
use crate::sets::{copy_list, copy_set, extend_set, list_has};
use crate::structure::dominators::compute_dominators;
use crate::structure::graph::reachable_within;
use crate::structure::guards::{at_or_behind, clock, has_come};
use crate::structure::handlers;
use crate::structure::model;
use crate::structure::region;
use crate::structure::region::{copy_names, join_parts, pair, Region, Tree};
use crate::structure::state;
use crate::structure::state::{left_out, WalkCx, WalkFrame, WalkState, Work};
use crate::structure::structurer::Structurer;

verus! {

broadcast use vstd::std_specs::hash::group_hash_axioms;

/// A walk keeps the groups valid and never gains tickets or visits. Only a
/// reading of the clock behind the deadline cuts walks short.
pub open spec fn kept(s: Structurer, a: WalkState, b: WalkState) -> bool {
    &&& s.groups_ok(b.structuring@)
    &&& b.budget <= a.budget
    &&& b.visits <= a.visits
    &&& a.cuts@ <= b.cuts@
    &&& a.cuts@ < b.cuts@ ==> s.has_overdue()
}

impl<'a> Structurer<'a> {
    /// The ids are those of blocks.
    pub open spec fn ids_ok(self, s: Set<usize>) -> bool {
        forall|x: usize| #[trigger] s.contains(x) ==> x < self.env().n()
    }

    /// No deadline is armed.
    pub open spec fn untimed(self) -> bool {
        self.guards.deadline is None
    }

    /// A deadline is armed, and `t` is at or behind it.
    pub open spec fn overdue_at(self, t: Instant) -> bool {
        self.guards.deadline matches Some(d) && at_or_behind(t, d)
    }

    /// Some time is behind the armed deadline.
    pub open spec fn has_overdue(self) -> bool {
        exists|t: Instant| self.overdue_at(t)
    }

    pub open spec fn frame_ok(self, f: WalkFrame) -> bool {
        &&& f.entry < self.env().n()
        &&& self.ids_ok(f.universe@)
        &&& self.groups_ok(f.active@)
        &&& f.dom.wf()
        &&& f.dom.idom@.len() == self.env().n()
    }

    /// The region names only blocks and try groups of the method.
    pub open spec fn valid(self, t: Tree) -> bool {
        t.within(self.env().n(), self.env().groups.len())
    }

    pub open spec fn valid_parts(self, v: Seq<Tree>) -> bool {
        forall|i: int| 0 <= i < v.len() ==> self.valid(#[trigger] v[i])
    }

    pub open spec fn valid_catches(self, v: Seq<(Seq<Seq<char>>, usize, Tree)>) -> bool {
        forall|i: int| 0 <= i < v.len() ==> (#[trigger] v[i]).1 < self.env().n() && self.valid(v[i].2)
    }

    pub open spec fn valid_cases(self, v: Seq<(Seq<i64>, Tree)>) -> bool {
        forall|i: int| 0 <= i < v.len() ==> self.valid((#[trigger] v[i]).1)
    }

    // -- copies ----------------------------------------------------------------------

    #[verifier::loop_isolation(false)]
    fn does_come_back(&self, cx: &WalkCx, t: usize, guard: usize) -> (r: bool)
        requires
            self.wf(),
            t < self.env().n(),
        ensures
            r == self.env().comes_back(cx@, t, guard),
    {
        let ghost e = self.env();
        if self.does_reach(t, guard, 4096) {
            return true;
        }
        let mut i: usize = 0;
        while i < cx.loops.len()
            invariant
                i <= cx.loops@.len(),
                forall|j: int| 0 <= j < i ==> !(#[trigger] cx@.loops[j] == t || e.reaches(t, cx@.loops[j], 4096)),
            decreases cx.loops@.len() - i,
        {
            if cx.loops[i] == t || self.does_reach(t, cx.loops[i], 4096) {
                assert(cx@.loops[i as int] == t || e.reaches(t, cx@.loops[i as int], 4096));
                return true;
            }
            i += 1;
        }
        false
    }

    #[verifier::loop_isolation(false)]
    fn bars_for_copy(&self, cx: &WalkCx, t: usize, stop: &HashSet<usize>, guard: usize) -> (r: HashSet<usize>)
        requires
            self.wf(),
            t < self.env().n(),
        ensures
            r@ == self.env().copy_bars(cx@, t, stop@, guard),
    {
        let ghost e = self.env();
        let mut bars = copy_set(stop);
        crate::sets::extend_seq(&mut bars, &cx.loops);
        bars.insert(guard);
        let ghost bars0 = stop@.union(cx@.loops.to_set()).insert(guard);
        assert(bars@ =~= bars0);
        if self.is_terminator_block(t) {
            return bars;
        }
        let probe = reachable_within(self.cfg, t, &bars);
        assert(probe@ == e.reach_within(t, bars0));
        let mut extra: HashSet<usize> = HashSet::new();
        let mut x: usize = 0;
        while x < self.cfg.blocks.len()
            invariant
                x <= e.n(),
                forall|y: usize|
                    #[trigger] extra@.contains(y) <==> y < x && probe@.contains(y) && y != t && e.shared_tail(y) && (!e.allow
                        || !(e.term(y) is Switch || e.small_closure(y, bars0))),
            decreases e.n() - x,
        {
            if probe.contains(&x) && x != t && self.shared_tail_confluence(x) && (!self.guards.allow_confluence || !(
            self.ends_switch(x) || self.confluence_closure_small(x, &bars))) {
                extra.insert(x);
            }
            x += 1;
        }
        extend_set(&mut bars, &extra);
        assert(bars@ =~= e.copy_bars(cx@, t, stop@, guard));
        bars
    }

    #[verifier::loop_isolation(false)]
    fn scope_for_copy(&self, tu: HashSet<usize>, active: &Vec<usize>) -> (r: (HashSet<usize>, Vec<usize>))
        requires
            self.wf(),
            self.ids_ok(tu@),
            self.groups_ok(active@),
        ensures
            (r.0@, r.1@) == self.env().copy_scope(tu@, active@, 0),
            self.ids_ok(r.0@),
            self.groups_ok(r.1@),
    {
        let ghost e = self.env();
        let ghost want = e.copy_scope(tu@, active@, 0);
        let mut scope = tu;
        let mut groups = copy_list(active);
        let mut gi: usize = 0;
        while gi < self.groups.len()
            invariant
                gi <= self.groups@.len(),
                e.copy_scope(scope@, groups@, gi as nat) == want,
                self.ids_ok(scope@),
                self.groups_ok(groups@),
            decreases self.groups@.len() - gi,
        {
            if !list_has(&groups, gi) && self.is_start_held(gi, &scope) {
                let ghost s0 = scope@;
                let mut b: usize = 0;
                while b < self.cfg.blocks.len()
                    invariant
                        b <= e.n(),
                        self.ids_ok(scope@),
                        forall|x: usize| #[trigger] scope@.contains(x) <==> s0.contains(x) || (x < b && e.handles(x, gi)),
                    decreases e.n() - b,
                {
                    if self.does_handle(b, gi) {
                        scope.insert(b);
                    }
                    b += 1;
                }
                assert forall|x: usize| #[trigger] e.handles(x, gi) implies x < e.n() by {
                    assert(e.handler.dom().contains(x));
                }
                assert(scope@ =~= s0.union(Set::new(|b: usize| e.handles(b, gi))));
                groups.push(gi);
            }
            gi += 1;
        }
        (scope, groups)
    }

    /// The region of a second walk from `t`, if a copy is affordable and ends.
    pub(crate) fn copy_walk(
        &self,
        cx: &WalkCx,
        st: &mut WalkState,
        t: usize,
        stop: &HashSet<usize>,
        active: &Vec<usize>,
        guard: usize,
    ) -> (r: Option<Region>)
        requires
            self.wf(),
            t < self.env().n(),
            self.groups_ok(active@),
            self.groups_ok(old(st).structuring@),
        ensures
            final(st).cuts@ == old(st).cuts@ ==> ({
                let (x, s) = self.env().copy_walk(cx@, old(st)@, t, stop@, active@, guard);
                r is Some == x is Some && (r is Some ==> r->0.view() == x->0) && final(st)@ == s
            }),
            kept(*self, *old(st), *final(st)),
            r matches Some(x) ==> self.valid(x.view()) && final(st).budget < old(st).budget,
            cx@.copies >= 4 || old(st).budget == 0 || self.env().comes_back(cx@, t, guard) || self.env().copy_bars(
                cx@,
                t,
                stop@,
                guard,
            ).contains(t) ==> r is None && final(st)@.tails == old(st)@.tails,
            r is None ==> final(st)@.tails == old(st)@.tails && final(st)@.claimed == old(st)@.claimed,
            r is Some ==> final(st)@.claimed == old(st)@.claimed && final(st)@.tails.contains(t),
        decreases 256 - cx.depth, 1nat, 0nat, 0nat, Tree::Empty, 0nat, 0nat,
    {
        if cx.copies >= 4 || st.budget == 0 {
            return None;
        }
        st.spend();
        if self.does_come_back(cx, t, guard) {
            return None;
        }
        let bars = self.bars_for_copy(cx, t, stop, guard);
        if bars.contains(&t) {
            return None;
        }
        let tu = reachable_within(self.cfg, t, &bars);
        assert(tu@ == self.env().reach_within(t, bars@));
        let (scope, groups) = self.scope_for_copy(tu, active);
        let inner = cx.copying();
        let saved = st.take_claimed();
        let r = self.walk(&inner, st, t, &scope, stop, &groups, true);
        st.set_claimed(saved);
        st.add_tail(t);
        Some(r)
    }

    pub(crate) fn copy_or_jump(
        &self,
        cx: &WalkCx,
        st: &mut WalkState,
        t: usize,
        stop: &HashSet<usize>,
        active: &Vec<usize>,
        guard: usize,
    ) -> (r: Region)
        requires
            self.wf(),
            t < self.env().n(),
            self.groups_ok(active@),
            self.groups_ok(old(st).structuring@),
        ensures
            final(st).cuts@ == old(st).cuts@ ==> (r.view(), final(st)@) == self.env().copy_or_jump(cx@, old(st)@, t, stop@, active@, guard),
            kept(*self, *old(st), *final(st)),
            self.valid(r.view()),
        decreases 256 - cx.depth, 2nat, 0nat, 0nat, Tree::Empty, 0nat, 0nat,
    {
        match self.copy_walk(cx, st, t, stop, active, guard) {
            Some(r) => r,
            None => Region::Goto { target: t },
        }
    }

    pub(crate) fn boundary_branch(
        &self,
        cx: &WalkCx,
        st: &mut WalkState,
        t: usize,
        bstop: &HashSet<usize>,
        active: &Vec<usize>,
        cur: usize,
    ) -> (r: Region)
        requires
            self.wf(),
            t < self.env().n(),
            self.groups_ok(active@),
            self.groups_ok(old(st).structuring@),
        ensures
            final(st).cuts@ == old(st).cuts@ ==> (r.view(), final(st)@) == self.env().boundary_branch(cx@, old(st)@, t, bstop@, active@, cur),
            kept(*self, *old(st), *final(st)),
            self.valid(r.view()),
        decreases 256 - cx.depth, 3nat, 0nat, 0nat, Tree::Empty, 0nat, 0nat,
    {
        if !list_has(&cx.loops, t) && self.is_stop_chain(t, &st.claimed, &cx.loops, 8) {
            let mut cstop = copy_set(bstop);
            cstop.remove(&t);
            assert(cstop@ =~= bstop@.remove(t));
            self.copy_or_jump(cx, st, t, &cstop, active, cur)
        } else {
            Region::Goto { target: t }
        }
    }

    pub(crate) fn ticket_walk(
        &self,
        cx: &WalkCx,
        st: &mut WalkState,
        t: usize,
        scope: &HashSet<usize>,
        stop: &HashSet<usize>,
        active: &Vec<usize>,
    ) -> (r: Region)
        requires
            self.wf(),
            t < self.env().n(),
            self.ids_ok(scope@),
            self.groups_ok(active@),
            self.groups_ok(old(st).structuring@),
        ensures
            final(st).cuts@ == old(st).cuts@ ==> (r.view(), final(st)@) == self.env().ticket_walk(cx@, old(st)@, t, scope@, stop@, active@),
            kept(*self, *old(st), *final(st)),
            self.valid(r.view()),
        decreases 256 - cx.depth, 1nat, 0nat, 0nat, Tree::Empty, 0nat, 0nat,
    {
        if st.budget == 0 {
            return Region::Empty;
        }
        st.spend();
        let saved = copy_set(&st.claimed);
        let r = self.walk(cx, st, t, scope, stop, active, false);
        st.set_claimed(saved);
        r
    }

    // -- one walk ------------------------------------------------------------------------

    /// Walk a scope starting at `entry`.
    ///
    /// * `universe` - blocks eligible for inclusion,
    /// * `stop`     - exclusive boundary,
    /// * `active`   - try groups that may start inside this scope,
    /// * `st.claimed` - blocks consumed (in/out; pre-seeded for loop bodies),
    /// * `allow` - process `entry` even if already claimed (loop headers are
    ///   pre-claimed).
    ///
    /// Past the depth limit, past the deadline, or with no visits left, the
    /// walk falls back to a jump to the entry.
    pub(crate) fn walk(
        &self,
        cx: &WalkCx,
        st: &mut WalkState,
        entry: usize,
        universe: &HashSet<usize>,
        stop: &HashSet<usize>,
        active: &Vec<usize>,
        allow: bool,
    ) -> (r: Region)
        requires
            self.wf(),
            self.ids_ok(universe@),
            self.groups_ok(active@),
            self.groups_ok(old(st).structuring@),
        ensures
            final(st).cuts@ == old(st).cuts@ ==> (r.view(), final(st)@) == self.env().walk(
                cx@,
                old(st)@,
                entry,
                universe@,
                stop@,
                active@,
                allow,
            ),
            kept(*self, *old(st), *final(st)),
            cx.depth >= 256 || old(st).visits == 0 ==> (r.view(), final(st)@) == (model::jump(entry), old(st)@),
            entry < self.env().n() ==> self.valid(r.view()),
        decreases 256 - cx.depth, 0nat, 1nat, 0nat, Tree::Empty, 0nat, 0nat,
    {
        if cx.depth >= 256 {
            return Region::Goto { target: entry };
        }
        let late = self.overdue();
        self.walk_unless(late, cx, st, entry, universe, stop, active, allow)
    }

    /// `now`, where a deadline is armed and `now` has come to it.
    fn late_at(&self, now: Instant) -> (r: Option<Instant>)
        ensures
            r == (if self.overdue_at(now) {
                Some(now)
            } else {
                None
            }),
    {
        match &self.guards.deadline {
            Some(d) => {
                if has_come(&now, d) {
                    Some(now)
                } else {
                    None
                }
            },
            None => None,
        }
    }

    /// The time, where a deadline is armed and the time has come to it. The
    /// clock is read only where one is armed.
    pub(crate) fn overdue(&self) -> (r: Option<Instant>)
        ensures
            r matches Some(t) ==> self.overdue_at(t),
            r is None ==> (self.guards.deadline matches Some(d) ==> exists|t: Instant| !#[trigger] at_or_behind(t, d)),
    {
        if self.guards.deadline.is_none() {
            return None;
        }
        self.late_at(clock())
    }

    /// The walk, unless it comes too late: then it is a jump to the entry, and
    /// nothing is claimed, copied or spent.
    pub(crate) fn walk_unless(
        &self,
        late: Option<Instant>,
        cx: &WalkCx,
        st: &mut WalkState,
        entry: usize,
        universe: &HashSet<usize>,
        stop: &HashSet<usize>,
        active: &Vec<usize>,
        allow: bool,
    ) -> (r: Region)
        requires
            self.wf(),
            cx.depth < 256,
            late matches Some(t) ==> self.overdue_at(t),
            self.ids_ok(universe@),
            self.groups_ok(active@),
            self.groups_ok(old(st).structuring@),
        ensures
            late is Some || old(st).visits == 0 ==> (r.view(), final(st)@) == (model::jump(entry), old(st)@),
            late is Some ==> final(st).cuts@ == old(st).cuts@ + 1,
            final(st).cuts@ == old(st).cuts@ ==> (r.view(), final(st)@) == self.env().walk(
                cx@,
                old(st)@,
                entry,
                universe@,
                stop@,
                active@,
                allow,
            ),
            kept(*self, *old(st), *final(st)),
            entry < self.env().n() ==> self.valid(r.view()),
        decreases 256 - cx.depth, 0nat, 0nat, 0nat, Tree::Empty, 0nat, 0nat,
    {
        if late.is_some() {
            st.cut();
            return Region::Goto { target: entry };
        }
        if st.visits == 0 {
            return Region::Goto { target: entry };
        }
        st.visits = st.visits - 1;
        let inner = cx.deeper();
        self.walk_inner(&inner, st, entry, universe, stop, active, allow)
    }

    fn walk_inner(
        &self,
        cx: &WalkCx,
        st: &mut WalkState,
        entry: usize,
        universe: &HashSet<usize>,
        stop: &HashSet<usize>,
        active: &Vec<usize>,
        allow: bool,
    ) -> (r: Region)
        requires
            self.wf(),
            self.ids_ok(universe@),
            self.groups_ok(active@),
            self.groups_ok(old(st).structuring@),
        ensures
            final(st).cuts@ == old(st).cuts@ ==> (r.view(), final(st)@) == self.env().walk_inner(
                cx@,
                old(st)@,
                entry,
                universe@,
                stop@,
                active@,
                allow,
            ),
            kept(*self, *old(st), *final(st)),
            self.valid(r.view()),
        decreases 256 - cx.depth, 9nat, 0nat, 0nat, Tree::Empty, 0nat, 0nat,
    {
        if !universe.contains(&entry) {
            return Region::Empty;
        }
        let f = WalkFrame {
            entry,
            universe,
            stop,
            active,
            allow,
            pre: st.claimed.contains(&entry),
            dom: compute_dominators(self.cfg, universe, entry),
        };
        st.count_dom();
        let ghost e = self.env();
        let ghost w0 = e.at_start(f@, st@);
        let ghost st0 = *st;
        let mut w = Work { parts: Vec::new(), cur: entry, done: false, first: true, structured: HashSet::new() };
        proof {
            assert(region::trees(w.parts@) =~= Seq::empty());
            assert(w.structured@ =~= Set::empty());
            assert(state::ws(w, *st) =~= w0);
        }
        let mut fuel: usize = 100_000;
        while fuel > 0 && !w.done && !stop.contains(&w.cur) && universe.contains(&w.cur)
            invariant
                self.wf(),
                e == self.env(),
                self.frame_ok(f),
                f.universe == universe,
                f.stop == stop,
                f.active == active,
                kept(*self, st0, *st),
                self.valid_parts(region::trees(w.parts@)),
                fuel <= 100_000,
                st.cuts@ == st0.cuts@ ==> e.run(cx@, f@, state::ws(w, *st), fuel as nat) == e.run(cx@, f@, w0, 100_000),
            decreases fuel,
        {
            self.step(cx, &f, &mut w, st);
            fuel -= 1;
        }
        join_parts(w.parts)
    }

    fn is_at_claimed_entry(&self, f: &WalkFrame, w: &Work, st: &WalkState) -> (r: bool)
        ensures
            r == self.env().at_claimed_entry(f@, state::ws(*w, *st)),
    {
        f.pre && w.cur == f.entry && w.parts.len() == 0
    }

    fn step(&self, cx: &WalkCx, f: &WalkFrame, w: &mut Work, st: &mut WalkState)
        requires
            self.wf(),
            self.frame_ok(*f),
            old(w).cur < self.env().n(),
            self.groups_ok(old(st).structuring@),
            self.valid_parts(region::trees(old(w).parts@)),
        ensures
            final(st).cuts@ == old(st).cuts@ ==> state::ws(*final(w), *final(st)) == self.env().step(cx@, f@, state::ws(*old(w), *old(st))),
            kept(*self, *old(st), *final(st)),
            self.valid_parts(region::trees(final(w).parts@)),
        decreases 256 - cx.depth, 7nat, 0nat, 0nat, Tree::Empty, 0nat, 0nat,
    {
        if st.claimed.contains(&w.cur) && !(w.first && f.allow) {
            self.arrive(cx, f, w, st);
            w.done = true;
            return;
        }
        if !w.first && self.is_handler_block(w.cur) && f.active.len() == 0 {
            w.done = true;
            return;
        }
        w.first = false;
        self.block_step(cx, f, w, st);
    }

    fn block_step(&self, cx: &WalkCx, f: &WalkFrame, w: &mut Work, st: &mut WalkState)
        requires
            self.wf(),
            self.frame_ok(*f),
            old(w).cur < self.env().n(),
            self.groups_ok(old(st).structuring@),
            self.valid_parts(region::trees(old(w).parts@)),
        ensures
            final(st).cuts@ == old(st).cuts@ ==> state::ws(*final(w), *final(st)) == self.env().block_step(
                cx@,
                f@,
                state::ws(*old(w), *old(st)),
            ),
            kept(*self, *old(st), *final(st)),
            self.valid_parts(region::trees(final(w).parts@)),
        decreases 256 - cx.depth, 6nat, 2nat, 0nat, Tree::Empty, 0nat, 0nat,
    {
        let cur = w.cur;
        if self.cfg.blocks[cur].ins_len == 0 {
            let list = self.succ_of(cur);
            if list.len() == 0 {
                w.done = true;
            } else {
                w.cur = list[0];
            }
            return;
        }
        if let Some(gi) = self.group_at(cur, f.universe, f.active, &st.structuring, f.pre, &f.dom, f.entry, &cx.loops) {
            self.try_step(cx, f, w, st, gi);
            return;
        }
        if !self.is_at_claimed_entry(f, w, st) && (self.is_header(cur, f.universe, &f.dom, f.entry, &cx.loops)
            || self.sese_exc_retry_headers.contains(&cur)) {
            self.loop_step(cx, f, w, st);
            return;
        }
        if let Some(m) = self.fold_root_to_merge.get(&cur) {
            if let Some(p) = self.fold_regions.get(m) {
                let m = *m;
                assert(self.env().roots.dom().contains(cur));
                assert(self.env().folds[m].1 == p.1@);
                if !self.is_quiet(cur) {
                    w.push(Region::Basic { block: cur });
                }
                st.claim_all(&p.1);
                st.claim(cur);
                st.claimed.remove(&m);
                w.cur = m;
                assert(st@.claimed =~= old(st)@.claimed.union(p.1@).insert(cur).remove(m));
                return;
            }
        }
        self.term_step(cx, f, w, st);
    }

    fn term_step(&self, cx: &WalkCx, f: &WalkFrame, w: &mut Work, st: &mut WalkState)
        requires
            self.wf(),
            self.frame_ok(*f),
            old(w).cur < self.env().n(),
            self.groups_ok(old(st).structuring@),
            self.valid_parts(region::trees(old(w).parts@)),
        ensures
            final(st).cuts@ == old(st).cuts@ ==> state::ws(*final(w), *final(st)) == self.env().term_step(
                cx@,
                f@,
                state::ws(*old(w), *old(st)),
            ),
            final(w).cur < self.env().n(),
            kept(*self, *old(st), *final(st)),
            self.valid_parts(region::trees(final(w).parts@)),
        decreases 256 - cx.depth, 6nat, 1nat, 0nat, Tree::Empty, 0nat, 0nat,
    {
        let cur = w.cur;
        let pre = self.is_at_claimed_entry(f, w, st);
        st.claim(cur);
        match &self.results[cur].term {
            Term::Cond { cond } => {
                let c = ir::share(cond);
                self.cond_step(cx, f, w, st, c, pre);
            },
            Term::Switch { selector, .. } => {
                let s = ir::share(selector);
                self.switch_step(cx, f, w, st, s);
            },
            Term::Goto => {
                self.goto_step(cx, f, w, st);
            },
            Term::Fallthrough => {
                self.fall_step(cx, f, w, st);
            },
            _ => {
                w.push(Region::Basic { block: cur });
                w.done = true;
            },
        }
    }

    // -- arriving at a claimed block --------------------------------------------------------

    #[verifier::loop_isolation(false)]
    fn does_loop_back(&self, cx: &WalkCx, b: usize, entry: usize) -> (r: bool)
        requires
            self.wf(),
            b < self.env().n(),
        ensures
            r == self.env().loops_back(cx@, b, entry),
    {
        let ghost e = self.env();
        let list = self.succ_of(b);
        let mut k: usize = 0;
        while k < list.len()
            invariant
                k <= list@.len(),
                forall|j: int|
                    0 <= j < k ==> !(cx@.loops.contains(#[trigger] e.succ(b)[j]) || e.headers.contains(e.succ(b)[j])
                        || e.reaches(e.succ(b)[j], entry, 4096)),
            decreases list@.len() - k,
        {
            let s = list[k];
            assert(s == e.succ(b)[k as int]);
            if list_has(&cx.loops, s) || self.sese_loop_headers.contains(&s) || self.does_reach(s, entry, 4096) {
                return true;
            }
            k += 1;
        }
        false
    }

    fn arrive(&self, cx: &WalkCx, f: &WalkFrame, w: &mut Work, st: &mut WalkState)
        requires
            self.wf(),
            self.frame_ok(*f),
            old(w).cur < self.env().n(),
            self.groups_ok(old(st).structuring@),
            self.valid_parts(region::trees(old(w).parts@)),
        ensures
            final(st).cuts@ == old(st).cuts@ ==> state::ws(*final(w), *final(st)) == self.env().arrive(
                cx@,
                f@,
                state::ws(*old(w), *old(st)),
            ),
            final(w).cur == old(w).cur,
            kept(*self, *old(st), *final(st)),
            self.valid_parts(region::trees(final(w).parts@)),
            region::extends(region::trees(final(w).parts@), region::trees(old(w).parts@)),
        decreases 256 - cx.depth, 3nat, 0nat, 0nat, Tree::Empty, 0nat, 0nat,
    {
        let cur = w.cur;
        if w.parts.len() == 0 {
            if list_has(&cx.loops, cur) || self.sese_loop_headers.contains(&cur) {
                w.push(Region::Goto { target: cur });
            }
            return;
        }
        if self.is_terminator_block(cur) {
            w.push(Region::CopyStmts { block: cur });
            return;
        }
        if list_has(&cx.loops, cur) {
            w.push(Region::Goto { target: cur });
            return;
        }
        proof {
            region::lemma_pair(Tree::CopyStmts { block: cur }, model::jump(cur), self.env().n(), self.env().groups.len());
        }
        match self.copy_walk(cx, st, cur, f.stop, f.active, f.entry) {
            Some(r) => {
                w.push(r);
            },
            None => {
                if !self.is_quiet(cur) && self.does_loop_back(cx, cur, f.entry) {
                    w.push(pair(Region::CopyStmts { block: cur }, Region::Goto { target: cur }));
                } else {
                    w.push(Region::Goto { target: cur });
                }
            },
        }
    }

    // -- a try group ------------------------------------------------------------------------

    #[verifier::loop_isolation(false)]
    fn next_free_block(&self, pc: u32, f: &WalkFrame, claimed: &HashSet<usize>, own: &HashSet<usize>) -> (r: Option<usize>)
        requires
            self.wf(),
        ensures
            r == self.env().next_block(pc, f@, claimed@, own@, 0),
            r matches Some(b) ==> b < self.env().n(),
    {
        let ghost e = self.env();
        let mut k: usize = 0;
        while k < self.cfg.blocks.len()
            invariant
                k <= e.n(),
                e.next_block(pc, f@, claimed@, own@, k as nat) == e.next_block(pc, f@, claimed@, own@, 0),
            decreases e.n() - k,
        {
            if self.cfg.blocks[k].start >= pc && f.universe.contains(&k) && !f.stop.contains(&k) && !claimed.contains(&k)
                && !self.is_handler_block(k) && !own.contains(&k) {
                return Some(k);
            }
            k += 1;
        }
        None
    }

    fn try_step(&self, cx: &WalkCx, f: &WalkFrame, w: &mut Work, st: &mut WalkState, gi: usize)
        requires
            self.wf(),
            self.frame_ok(*f),
            old(w).cur < self.env().n(),
            self.groups_ok(old(st).structuring@),
            self.valid_parts(region::trees(old(w).parts@)),
            gi < self.groups@.len(),
        ensures
            final(st).cuts@ == old(st).cuts@ ==> state::ws(*final(w), *final(st)) == self.env().try_step(
                cx@,
                f@,
                state::ws(*old(w), *old(st)),
                gi,
            ),
            final(w).cur < self.env().n(),
            kept(*self, *old(st), *final(st)),
            self.valid_parts(region::trees(final(w).parts@)),
            region::goes_on_with(
                region::trees(final(w).parts@),
                region::trees(old(w).parts@),
                region::trees(final(w).parts@)[old(w).parts@.len() as int],
            ),
            region::trees(final(w).parts@)[old(w).parts@.len() as int] matches Tree::Try { group_idx, catches, .. } && group_idx == gi
                && catches.len() == self.env().merged_handlers(gi).len(),
        decreases 256 - cx.depth, 6nat, 0nat, 0nat, Tree::Empty, 0nat, 0nat,
    {
        assert(self.env().groups[gi as int] == self.groups@[gi as int]@);
        let r = self.structure_try(cx, st, gi, f.universe, f.stop);
        w.push(r);
        w.structured.insert(gi);
        let own = self.handler_flow_only(gi, &cx.loops);
        match self.next_free_block(self.groups[gi].end, f, &st.claimed, &own) {
            Some(b) => {
                w.cur = b;
            },
            None => {
                w.done = true;
            },
        }
    }

    fn try_body_region(&self, cx: &WalkCx, st: &mut WalkState, gi: usize, universe: &HashSet<usize>, stop: &HashSet<usize>) -> (r: (Region, bool))
        requires
            self.wf(),
            self.groups_ok(old(st).structuring@),
            gi < self.groups@.len(),
        ensures
            final(st).cuts@ == old(st).cuts@ ==> (r.0.view(), r.1, final(st)@) == self.env().try_body_region(
                cx@,
                old(st)@,
                gi,
                universe@,
                stop@,
            ),
            kept(*self, *old(st), *final(st)),
            self.valid(r.0.view()),
        decreases 256 - cx.depth, 1nat, 0nat, 0nat, Tree::Empty, 0nat, 0nat,
    {
        assert(self.env().groups[gi as int] == self.groups@[gi as int]@);
        let body = self.body_universe(gi, universe, &cx.loops);
        let entry = match self.cfg.block_at(self.groups[gi].start) {
            Some(b) => b,
            None => {
                return (Region::Empty, false);
            },
        };
        if !body.contains(&entry) {
            return (Region::Empty, false);
        }
        let none: HashSet<usize> = HashSet::new();
        assert(none@ =~= Set::empty());
        let nested = self.nested_groups(gi);
        let allow = st.claimed.contains(&entry);
        let r = self.walk(cx, st, entry, &body, &none, &nested, allow);
        match self.continuation_after(self.groups[gi].end, universe, &st.claimed, stop) {
            Some(c) => {
                let own = self.handler_flow_only(gi, &cx.loops);
                if own.contains(&c) || body.contains(&c) {
                    (r, false)
                } else {
                    let mut seen: HashSet<usize> = HashSet::new();
                    assert(seen@ =~= Set::empty());
                    proof {
                        self.env().lemma_stripped(r.view(), c, seen@);
                    }
                    (self.strip_goto(r, c, &mut seen), true)
                }
            },
            None => (r, false),
        }
    }

    fn catch_region(&self, cx: &WalkCx, st: &mut WalkState, gi: usize, hb: usize, universe: &HashSet<usize>, goes_on: bool) -> (r: Region)
        requires
            self.wf(),
            self.groups_ok(old(st).structuring@),
            gi < self.groups@.len(),
            hb < self.env().n(),
        ensures
            final(st).cuts@ == old(st).cuts@ ==> (r.view(), final(st)@) == self.env().catch_region(
                cx@,
                old(st)@,
                gi,
                hb,
                universe@,
                goes_on,
            ),
            kept(*self, *old(st), *final(st)),
            self.valid(r.view()),
        decreases 256 - cx.depth, 1nat, 0nat, 0nat, Tree::Empty, 0nat, 0nat,
    {
        assert(self.env().groups[gi as int] == self.groups@[gi as int]@);
        let hu = self.handler_universe(gi, hb, universe, &st.claimed, goes_on, &cx.loops);
        let active = self.groups_for_handler(gi, &hu);
        let none: HashSet<usize> = HashSet::new();
        assert(none@ =~= Set::empty());
        let r = self.walk(cx, st, hb, &hu, &none, &active, false);
        proof {
            self.env().lemma_unjumped(r.view(), self.groups@[gi as int].end);
        }
        self.strip_exit(r, self.groups[gi].end)
    }

    /// Structure a try group: its body and its handlers.
    pub(crate) fn structure_try(&self, cx: &WalkCx, st: &mut WalkState, gi: usize, universe: &HashSet<usize>, stop: &HashSet<usize>) -> (r: Region)
        requires
            self.wf(),
            self.groups_ok(old(st).structuring@),
            gi < self.groups@.len(),
        ensures
            final(st).cuts@ == old(st).cuts@ ==> (r.view(), final(st)@) == self.env().try_region(cx@, old(st)@, gi, universe@, stop@),
            r.view() matches Tree::Try { group_idx, catches, .. } && {
                &&& group_idx == gi
                &&& catches.len() == self.env().merged_handlers(gi).len()
                &&& forall|k: int|
                    0 <= k < catches.len() ==> ((#[trigger] catches[k]).0, catches[k].1) == self.env().merged_handlers(gi)[k]
            },
            kept(*self, *old(st), *final(st)),
            self.valid(r.view()),
        decreases 256 - cx.depth, 3nat, 0nat, 0nat, Tree::Empty, 0nat, 0nat,
    {
        let ghost e = self.env();
        let ghost before = *st;
        st.structuring.push(gi);
        let (body, goes_on) = self.try_body_region(cx, st, gi, universe, stop);
        let ghost st2 = st@;
        let ghost cuts = st.cuts@;
        let hs = self.merge_handlers(gi);
        let ghost hv = e.merged_handlers(gi);
        let mut catches: Vec<(Vec<String>, usize, Box<Region>)> = Vec::new();
        let mut k: usize = 0;
        assert(region::catches_view(catches@) =~= Seq::empty());
        while k < hs.len()
            invariant
                self.wf(),
                e == self.env(),
                gi < self.groups@.len(),
                k <= hs@.len(),
                hv == e.merged_handlers(gi),
                handlers::handler_views(hs@) == hv,
                forall|i: int| 0 <= i < hs@.len() ==> (#[trigger] hs@[i]).1 < e.n(),
                kept(*self, before, *st),
                cuts <= st.cuts@,
                self.valid_catches(region::catches_view(catches@)),
                catches@.len() == k,
                forall|i: int|
                    0 <= i < k ==> ((#[trigger] region::catches_view(catches@)[i]).0, region::catches_view(catches@)[i].1)
                        == hv[i],
                st.cuts@ == cuts ==> (region::catches_view(catches@), st@) == e.catches(
                    cx@,
                    st2,
                    gi,
                    universe@,
                    goes_on,
                    k as nat,
                ),
            decreases hs@.len() - k,
        {
            let hb = hs[k].1;
            let ghost cv = region::catches_view(catches@);
            assert(hv[k as int] == (region::names(hs@[k as int].0@), hb));
            let r = self.catch_region(cx, st, gi, hb, universe, goes_on);
            let names = copy_names(&hs[k].0);
            let ghost item = (region::names(names@), hb, r.view());
            catches.push((names, hb, Box::new(r)));
            assert(region::catches_view(catches@) =~= cv.push(item));
            k += 1;
        }
        let kept_groups = without(&st.structuring, gi);
        assert(self.groups_ok(kept_groups@)) by {
            assert forall|i: int| 0 <= i < kept_groups@.len() implies #[trigger] kept_groups@[i] < self.groups@.len() by {
                assert(st.structuring@.contains(kept_groups@[i]));
            }
        }
        st.structuring = kept_groups;
        let r = Region::Try { group_idx: gi, body: Box::new(body), catches };
        proof {
            region::lemma_try_view(r);
        }
        r
    }

    // -- a loop -------------------------------------------------------------------------------

    /// Structure the loop at `header`. Exits with content stay jumps out of
    /// the body.
    fn structure_loop(&self, cx: &WalkCx, st: &mut WalkState, f: &WalkFrame, header: usize) -> (r: Region)
        requires
            self.wf(),
            self.frame_ok(*f),
            header < self.env().n(),
            self.groups_ok(old(st).structuring@),
        ensures
            r.view() matches Tree::Loop { header: h, members, exits, .. } && {
                &&& h == header
                &&& members == self.env().loop_members(header, f@.universe, f@.stop, f@.idom, cx@.loops)
                &&& exits == self.env().ordered(self.env().exit_set(members))
                &&& members.subset_of(final(st)@.claimed)
            },
            final(st).cuts@ == old(st).cuts@ ==> (r.view(), final(st)@) == self.env().loop_region(cx@, old(st)@, f@, header),
            kept(*self, *old(st), *final(st)),
            self.valid(r.view()),
        decreases 256 - cx.depth, 1nat, 0nat, 0nat, Tree::Empty, 0nat, 0nat,
    {
        let members = self.members_of_loop(header, f.universe, f.stop, &f.dom, &cx.loops);
        let exit_set = self.exits_of_loop(&members);
        let exits = self.in_order(&exit_set);
        let mut inner_stop: HashSet<usize> = HashSet::new();
        let ghost e = self.env();
        let mut b: usize = 0;
        while b < self.cfg.blocks.len()
            invariant
                e == self.env(),
                b <= e.n(),
                forall|x: usize| #[trigger] inner_stop@.contains(x) <==> x < b && f.stop@.contains(x) && members@.contains(x),
            decreases e.n() - b,
        {
            if f.stop.contains(&b) && members.contains(&b) {
                inner_stop.insert(b);
            }
            b += 1;
        }
        extend_set(&mut inner_stop, &exit_set);
        assert(inner_stop@ =~= f.stop@.intersect(members@).union(exit_set@));
        st.count_dom();
        st.claim(header);
        let inner = cx.in_loop(header);
        let body = self.walk(&inner, st, header, &members, &inner_stop, f.active, true);
        st.claim_all(&members);
        Region::Loop { header, body: Box::new(body), members, exits }
    }

    fn is_body_done(&self, r: &Region) -> (d: bool)
        ensures
            d == self.env().body_done(r.view()),
    {
        match r {
            Region::Loop { body, exits, .. } => {
                let hs = self.handler_exits(exits);
                body.terminates(self.results, &hs) && !self.does_end_at_exit(body, exits)
            },
            _ => false,
        }
    }

    fn handler_exits(&self, exits: &Vec<usize>) -> (r: Vec<usize>)
        ensures
            r@ == exits@.filter(|x: usize| self.env().is_handler(x)),
    {
        let ghost g = |x: usize| self.env().is_handler(x);
        let mut r: Vec<usize> = Vec::new();
        let mut i: usize = 0;
        reveal(Seq::filter);
        assert(exits@.take(0).filter(g) =~= Seq::<usize>::empty());
        while i < exits.len()
            invariant
                i <= exits@.len(),
                g == |x: usize| self.env().is_handler(x),
                r@ == exits@.take(i as int).filter(g),
            decreases exits@.len() - i,
        {
            reveal(Seq::filter);
            assert(exits@.take(i + 1).drop_last() =~= exits@.take(i as int));
            assert(exits@.take(i + 1).last() == exits@[i as int]);
            if self.is_handler_block(exits[i]) {
                r.push(exits[i]);
            }
            i += 1;
        }
        assert(exits@.take(i as int) =~= exits@);
        r
    }

    #[verifier::loop_isolation(false)]
    fn find_ending_exit(&self, exits: &Vec<usize>, stop: &HashSet<usize>) -> (r: Option<usize>)
        ensures
            r == self.env().ending_exit(exits@, stop@, 0),
            r matches Some(x) ==> exists|i: int| 0 <= i < exits@.len() && #[trigger] exits@[i] == x,
    {
        let ghost e = self.env();
        let mut k: usize = 0;
        while k < exits.len()
            invariant
                k <= exits@.len(),
                e.ending_exit(exits@, stop@, k as nat) == e.ending_exit(exits@, stop@, 0),
            decreases exits@.len() - k,
        {
            if !stop.contains(&exits[k]) && self.is_terminator_block(exits[k]) {
                return Some(exits[k]);
            }
            k += 1;
        }
        None
    }

    #[verifier::loop_isolation(false)]
    fn find_boundary_exit(&self, exits: &Vec<usize>, f: &WalkFrame, loops: &Vec<usize>) -> (r: Option<usize>)
        ensures
            r == self.env().boundary_exit(exits@, f@, loops@, 0),
            r matches Some(x) ==> exists|i: int| 0 <= i < exits@.len() && #[trigger] exits@[i] == x,
    {
        let ghost e = self.env();
        let mut k: usize = 0;
        while k < exits.len()
            invariant
                k <= exits@.len(),
                e.boundary_exit(exits@, f@, loops@, k as nat) == e.boundary_exit(exits@, f@, loops@, 0),
            decreases exits@.len() - k,
        {
            if f.stop.contains(&exits[k]) && !list_has(loops, exits[k]) && f.universe.contains(&exits[k]) {
                return Some(exits[k]);
            }
            k += 1;
        }
        None
    }

    fn does_rotate(&self, w: &Work, r: &Region, st: &WalkState, n: usize, Ghost(before): Ghost<WalkState>) -> (b: bool)
        requires
            self.wf(),
            n < self.env().n(),
            w.cur < self.env().n(),
        ensures
            b == self.env().rotates(state::ws(*w, before), r.view(), st@, n),
    {
        if w.parts.len() == 0 {
            return false;
        }
        let ghost ts = region::trees(w.parts@);
        assert(ts.last() == w.parts@[w.parts@.len() - 1].view());
        let at = match &w.parts[w.parts.len() - 1] {
            Region::Basic { block } => *block == n,
            _ => false,
        };
        at && st.claimed.contains(&n) && self.cfg.blocks[n].start < self.cfg.blocks[w.cur].start && !self.is_handler_block(
            n,
        ) && !r.mentions(n)
    }

    fn loop_step(&self, cx: &WalkCx, f: &WalkFrame, w: &mut Work, st: &mut WalkState)
        requires
            self.wf(),
            self.frame_ok(*f),
            old(w).cur < self.env().n(),
            self.groups_ok(old(st).structuring@),
            self.valid_parts(region::trees(old(w).parts@)),
        ensures
            final(st).cuts@ == old(st).cuts@ ==> state::ws(*final(w), *final(st)) == self.env().loop_step(
                cx@,
                f@,
                state::ws(*old(w), *old(st)),
            ),
            final(w).cur < self.env().n(),
            kept(*self, *old(st), *final(st)),
            self.valid_parts(region::trees(final(w).parts@)),
            ({
                let v = region::trees(final(w).parts@);
                let u = region::trees(old(w).parts@);
                ||| region::goes_on_with(v, u, v[u.len() as int]) && (v[u.len() as int] matches Tree::Loop { header, .. }
                    && header == old(w).cur)
                ||| u.len() > 0 && v.len() == u.len() && region::extends(v, u.drop_last()) && v.last() is Loop
            }),
        decreases 256 - cx.depth, 6nat, 0nat, 0nat, Tree::Empty, 0nat, 0nat,
    {
        let ghost before = *st;
        let r = self.structure_loop(cx, st, f, w.cur);
        let ghost rv = r.view();
        let done = self.is_body_done(&r);
        let next = if done {
            None
        } else {
            self.next_after_loop(&r, f.universe, f.stop, &cx.loops)
        };
        match next {
            Some(n) => {
                if self.does_rotate(w, &r, st, n, Ghost(before)) {
                    let ghost ts = region::trees(w.parts@);
                    let top = w.parts.pop().unwrap();
                    assert(top.view() == ts.last());
                    assert(region::trees(w.parts@) =~= ts.drop_last());
                    let mut members: HashSet<usize> = HashSet::new();
                    if let Region::Loop { members: ms, .. } = &r {
                        members = copy_set(ms);
                    }
                    members.insert(n);
                    let exits: Vec<usize> = Vec::new();
                    assert(exits@ =~= Seq::empty());
                    proof {
                        assert(self.valid(ts[ts.len() - 1]));
                        region::lemma_pair(top.view(), r.view(), self.env().n(), self.env().groups.len());
                    }
                    let body = pair(top, r);
                    let ghost body_v = body.view();
                    let ghost members_v = members@;
                    assert(forall|x: usize| #[trigger] rv->Loop_members.contains(x) ==> x < self.env().n());
                    let r2 = Region::Loop { header: n, body: Box::new(body), members, exits };
                    assert(body_v.within(self.env().n(), self.env().groups.len()));
                    assert(members_v =~= rv->Loop_members.insert(n));
                    assert(r2.view() == (Tree::Loop {
                        header: n,
                        body: Box::new(body_v),
                        members: members_v,
                        exits: Seq::empty(),
                    }));
                    assert(self.valid(r2.view()));
                    assert(self.valid_parts(ts.drop_last())) by {
                        assert forall|i: int| 0 <= i < ts.len() - 1 implies self.valid(#[trigger] ts.drop_last()[i]) by {
                            assert(self.valid(ts[i]));
                        }
                    }
                    w.push(r2);
                    w.done = true;
                } else {
                    w.push(r);
                    w.cur = n;
                }
            },
            None => {
                if !done {
                    if let Region::Loop { exits, .. } = &r {
                        let a = self.find_ending_exit(exits, f.stop);
                        let b = self.find_boundary_exit(exits, f, &cx.loops);
                        assert(exits@ == rv->Loop_exits);
                        w.push(r);
                        if let Some(x) = a {
                            w.push(Region::CopyStmts { block: x });
                        }
                        if let Some(x) = b {
                            w.push(Region::Goto { target: x });
                        }
                    }
                } else {
                    w.push(r);
                }
                w.done = true;
            },
        }
    }

    // -- a jump or fall-through -------------------------------------------------------------------

    fn goto_step(&self, cx: &WalkCx, f: &WalkFrame, w: &mut Work, st: &mut WalkState)
        requires
            self.wf(),
            self.frame_ok(*f),
            old(w).cur < self.env().n(),
            self.groups_ok(old(st).structuring@),
            self.valid_parts(region::trees(old(w).parts@)),
        ensures
            final(st).cuts@ == old(st).cuts@ ==> state::ws(*final(w), *final(st)) == self.env().goto_step(
                cx@,
                f@,
                state::ws(*old(w), *old(st)),
            ),
            final(w).cur < self.env().n(),
            kept(*self, *old(st), *final(st)),
            self.valid_parts(region::trees(final(w).parts@)),
            region::goes_on_with(region::trees(final(w).parts@), region::trees(old(w).parts@), Tree::Basic { block: old(w).cur }),
        decreases 256 - cx.depth, 6nat, 0nat, 0nat, Tree::Empty, 0nat, 0nat,
    {
        let cur = w.cur;
        w.push(Region::Basic { block: cur });
        let list = self.succ_of(cur);
        if list.len() == 0 {
            w.done = true;
            return;
        }
        let t = list[0];
        if w.can_enter(f, st, t) && !(self.is_handler_block(t) && f.active.len() == 0) {
            w.cur = t;
            return;
        }
        if f.universe.contains(&t) && !f.stop.contains(&t) && st.claimed.contains(&t) && f.dom.dominates(t, cur) {
            self.jump_back(cx, f, w, st, t);
        } else {
            self.jump_out(cx, f, w, st, t);
        }
        w.done = true;
    }

    fn jump_back(&self, cx: &WalkCx, f: &WalkFrame, w: &mut Work, st: &mut WalkState, t: usize)
        requires
            self.wf(),
            self.frame_ok(*f),
            old(w).cur < self.env().n(),
            t < self.env().n(),
            self.groups_ok(old(st).structuring@),
            self.valid_parts(region::trees(old(w).parts@)),
        ensures
            final(st).cuts@ == old(st).cuts@ ==> state::ws(*final(w), *final(st)) == self.env().jump_back(
                cx@,
                f@,
                state::ws(*old(w), *old(st)),
                t,
            ),
            final(w).cur == old(w).cur,
            kept(*self, *old(st), *final(st)),
            self.valid_parts(region::trees(final(w).parts@)),
            region::extends(region::trees(final(w).parts@), region::trees(old(w).parts@)),
        decreases 256 - cx.depth, 3nat, 0nat, 0nat, Tree::Empty, 0nat, 0nat,
    {
        if list_has(&cx.loops, t) || self.is_retry_head(t) {
            w.push(Region::Goto { target: t });
        } else if self.is_terminator_block(t) {
            w.push(Region::CopyStmts { block: t });
        } else {
            let r = self.copy_or_jump(cx, st, t, f.stop, f.active, w.cur);
            w.push(r);
        }
    }

    fn jump_out(&self, cx: &WalkCx, f: &WalkFrame, w: &mut Work, st: &mut WalkState, t: usize)
        requires
            self.wf(),
            self.frame_ok(*f),
            old(w).cur < self.env().n(),
            t < self.env().n(),
            self.groups_ok(old(st).structuring@),
            self.valid_parts(region::trees(old(w).parts@)),
        ensures
            final(st).cuts@ == old(st).cuts@ ==> state::ws(*final(w), *final(st)) == self.env().jump_out(
                cx@,
                f@,
                state::ws(*old(w), *old(st)),
                t,
            ),
            final(w).cur == old(w).cur,
            kept(*self, *old(st), *final(st)),
            self.valid_parts(region::trees(final(w).parts@)),
            region::extends(region::trees(final(w).parts@), region::trees(old(w).parts@)),
        decreases 256 - cx.depth, 3nat, 0nat, 0nat, Tree::Empty, 0nat, 0nat,
    {
        let cur = w.cur;
        let free = !f.stop.contains(&t) && !self.is_retry_head(t);
        if self.is_terminator_block(t) && free && !self.does_write_final(t) {
            w.push(Region::CopyStmts { block: t });
            return;
        }
        let again = cx.depth == 1 && st.claimed.contains(&t) && st.tails.contains(&t) && self.cfg_all_paths_terminate(t)
            && free && !self.does_write_final(t);
        assert(again == self.env().recopies(cx@, f@, state::ws(*w, *st), t));
        let mut out = false;
        if !again && free && !list_has(&cx.loops, t) && !self.shared_tail_confluence(t) {
            let rest = left_out(f.active, &w.structured);
            assert(self.groups_ok(rest@)) by {
                assert forall|i: int| 0 <= i < rest@.len() implies #[trigger] rest@[i] < self.groups@.len() by {
                    assert(f.active@.contains(rest@[i]));
                }
            }
            out = !self.is_active_group_continuation(cur, t, &st.claimed, &rest);
        }
        assert(again || out == self.env().copies_out(cx@, f@, state::ws(*w, *st), t));
        if again || out {
            let r = self.copy_or_jump(cx, st, t, f.stop, f.active, cur);
            w.push(r);
        } else {
            w.push(Region::Goto { target: t });
        }
    }

    fn fall_step(&self, cx: &WalkCx, f: &WalkFrame, w: &mut Work, st: &mut WalkState)
        requires
            self.wf(),
            self.frame_ok(*f),
            old(w).cur < self.env().n(),
            self.groups_ok(old(st).structuring@),
            self.valid_parts(region::trees(old(w).parts@)),
        ensures
            final(st).cuts@ == old(st).cuts@ ==> state::ws(*final(w), *final(st)) == self.env().fall_step(
                cx@,
                f@,
                state::ws(*old(w), *old(st)),
            ),
            final(w).cur < self.env().n(),
            kept(*self, *old(st), *final(st)),
            self.valid_parts(region::trees(final(w).parts@)),
            region::goes_on_with(region::trees(final(w).parts@), region::trees(old(w).parts@), Tree::Basic { block: old(w).cur }),
        decreases 256 - cx.depth, 6nat, 0nat, 0nat, Tree::Empty, 0nat, 0nat,
    {
        let cur = w.cur;
        w.push(Region::Basic { block: cur });
        let list = self.succ_of(cur);
        if list.len() == 0 {
            w.done = true;
            return;
        }
        let t = list[0];
        if self.is_handler_block(t) && f.active.len() == 0 {
            w.done = true;
            return;
        }
        if f.universe.contains(&t) && !f.stop.contains(&t) {
            w.cur = t;
            return;
        }
        w.done = true;
        if !self.does_copy_after(cx, f, w, st, t) {
            w.push(Region::Goto { target: t });
        } else if self.is_terminator_block(t) {
            w.push(Region::CopyStmts { block: t });
        } else {
            let r = self.copy_or_jump(cx, st, t, f.stop, f.active, cur);
            w.push(r);
        }
    }

    fn does_copy_after(&self, cx: &WalkCx, f: &WalkFrame, w: &Work, st: &WalkState, t: usize) -> (r: bool)
        requires
            self.wf(),
            self.frame_ok(*f),
            t < self.env().n(),
            self.groups_ok(st.structuring@),
        ensures
            r == self.env().copies_after(cx@, f@, state::ws(*w, *st), t),
    {
        if !st.claimed.contains(&t) || f.stop.contains(&t) || list_has(&cx.loops, t) || self.is_handler_block(t)
            || self.does_write_final(t) {
            return false;
        }
        let rest = left_out(f.active, &w.structured);
        assert(self.groups_ok(rest@)) by {
            assert forall|i: int| 0 <= i < rest@.len() implies #[trigger] rest@[i] < self.groups@.len() by {
                assert(f.active@.contains(rest@[i]));
            }
        }
        !self.is_owned_cont(t, f.stop, &st.claimed, &rest, &st.structuring)
    }
}

/// The list without `x`.
fn without(v: &Vec<usize>, x: usize) -> (r: Vec<usize>)
    ensures
        r@ == model::all_but(v@, x),
        forall|i: int| 0 <= i < r@.len() ==> v@.contains(#[trigger] r@[i]),
{
    let ghost g = model::differs(x);
    let mut r: Vec<usize> = Vec::new();
    let mut i: usize = 0;
    reveal(Seq::filter);
    assert(v@.take(0).filter(g) =~= Seq::<usize>::empty());
    while i < v.len()
        invariant
            i <= v@.len(),
            g == model::differs(x),
            r@ == v@.take(i as int).filter(g),
            forall|k: int| 0 <= k < r@.len() ==> v@.contains(#[trigger] r@[k]),
        decreases v@.len() - i,
    {
        reveal(Seq::filter);
        assert(v@.take(i + 1).drop_last() =~= v@.take(i as int));
        assert(v@.take(i + 1).last() == v@[i as int]);
        if v[i] != x {
            r.push(v[i]);
        }
        i += 1;
    }
    assert(v@.take(i as int) =~= v@);
    r
}

} // verus!
