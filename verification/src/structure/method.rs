//! Structuring a whole method.

use std::collections::HashSet;
use std::time::Instant;

use vstd::prelude::*;

use crate::sets::{copy_list, copy_set};
use crate::structure::env::Env;
use crate::structure::guards::WalkGuards;
use crate::structure::model;
use crate::structure::model::{Cx, St};
use crate::structure::region::{Region, Tree};
use crate::structure::state::{WalkCx, WalkState};
use crate::structure::structurer::Structurer;

verus! {

broadcast use vstd::std_specs::hash::group_hash_axioms;

impl Env {
    /// The blocks with code.
    pub open spec fn code_blocks(self) -> Set<usize> {
        Set::new(|b: usize| b < self.n() && self.cfg.len(b) != 0)
    }

    /// The region of the method: the walk from its entry over all code, with
    /// the outermost try groups open.
    pub open spec fn method_region(self, cx: Cx, st: St) -> (Tree, St) {
        self.walk(
            cx,
            st,
            self.cfg.entry,
            self.code_blocks(),
            Set::empty(),
            self.top_groups(self.groups.len()),
            true,
        )
    }
}

/// The counters after a walk that took `used` visits and asked for `doms` dominator trees over `n` blocks.
pub open spec fn counted(g: WalkGuards, used: u64, doms: u64, n: nat) -> WalkGuards {
    WalkGuards {
        visits_total: g.visits_total.wrapping_add(used),
        dom_calls: if g.dom_on {
            g.dom_calls.wrapping_add(doms)
        } else {
            g.dom_calls
        },
        dom_blocks: if g.dom_on {
            g.dom_blocks.wrapping_add(doms.wrapping_mul(n as u64))
        } else {
            g.dom_blocks
        },
        ..g
    }
}

impl<'a> Structurer<'a> {
    /// Where the walk of the method starts.
    pub open spec fn start_cx(self) -> Cx {
        Cx {
            depth: 0,
            loops: self.loops_stack@,
            in_switch: self.switch_depth > 0,
            arms: self.case_arm_ctx@,
            copies: 0,
        }
    }

    pub open spec fn start_state(self) -> St {
        St {
            claimed: Set::empty(),
            tails: self.copied_tails@,
            budget: self.copy_budget,
            visits: self.visits_left,
            structuring: self.structuring_groups@,
            doms: 1,
        }
    }

    /// The structurer after a walk: what was copied, spent and counted.
    pub open spec fn walked(self, o: Self, s: St) -> bool {
        &&& self.copied_tails@ == s.tails
        &&& self.copy_budget == s.budget
        &&& self.visits_left == s.visits
        &&& self.structuring_groups@ == s.structuring
        &&& self.guards == counted(o.guards, (o.visits_left - s.visits) as u64, s.doms, o.env().n())
    }

    /// What no walk changes: the method's facts and where the walk stands.
    pub open spec fn same_method(self, o: Self) -> bool {
        &&& self.env() == o.env()
        &&& self.start_cx() == o.start_cx()
        &&& self.switch_depth == o.switch_depth
        &&& self.guards.deadline == o.guards.deadline
    }

    /// Structure the method.
    pub fn structure_method(&mut self) -> (r: Region)
        requires
            old(self).wf(),
            old(self).groups_ok(old(self).structuring_groups@),
        ensures
            final(self).wf(),
            final(self).same_method(*old(self)),
            final(self).cuts@ == 0 ==> ({
                let (t, s) = old(self).env().method_region(old(self).start_cx(), old(self).start_state());
                r.view() == t && final(self).walked(*old(self), s)
            }),
            final(self).cuts@ > 0 ==> old(self).has_overdue(),
            old(self).untimed() ==> final(self).cuts@ == 0,
            old(self).visits_left == 0 ==> r.view() == model::jump(old(self).env().cfg.entry)
                && final(self).walked(*old(self), old(self).start_state()),
            exists|doms: u64|
                final(self).guards == #[trigger] counted(
                    old(self).guards,
                    (old(self).visits_left - final(self).visits_left) as u64,
                    doms,
                    old(self).env().n(),
                ),
            final(self).copy_budget <= old(self).copy_budget,
            final(self).visits_left <= old(self).visits_left,
            final(self).groups_ok(final(self).structuring_groups@),
            old(self).env().n() > 0 ==> old(self).valid(r.view()),
    {
        self.structure_method_walk()
    }

    /// The walk over the whole method. Heads of loops that only exceptions
    /// close are not searched for: the caller supplies them in
    /// `sese_exc_retry_headers`.
    pub fn structure_method_walk(&mut self) -> (r: Region)
        requires
            old(self).wf(),
            old(self).groups_ok(old(self).structuring_groups@),
        ensures
            final(self).wf(),
            final(self).same_method(*old(self)),
            final(self).cuts@ == 0 ==> ({
                let (t, s) = old(self).env().method_region(old(self).start_cx(), old(self).start_state());
                r.view() == t && final(self).walked(*old(self), s)
            }),
            final(self).cuts@ > 0 ==> old(self).has_overdue(),
            old(self).untimed() ==> final(self).cuts@ == 0,
            old(self).visits_left == 0 ==> r.view() == model::jump(old(self).env().cfg.entry)
                && final(self).walked(*old(self), old(self).start_state()),
            exists|doms: u64|
                final(self).guards == #[trigger] counted(
                    old(self).guards,
                    (old(self).visits_left - final(self).visits_left) as u64,
                    doms,
                    old(self).env().n(),
                ),
            final(self).copy_budget <= old(self).copy_budget,
            final(self).visits_left <= old(self).visits_left,
            final(self).groups_ok(final(self).structuring_groups@),
            old(self).env().n() > 0 ==> old(self).valid(r.view()),
    {
        let late = self.overdue();
        self.structure_method_unless(late)
    }

    /// The walk over the whole method, unless it starts too late: then the
    /// method is a jump to its entry.
    pub fn structure_method_unless(&mut self, late: Option<Instant>) -> (r: Region)
        requires
            old(self).wf(),
            old(self).groups_ok(old(self).structuring_groups@),
            late matches Some(t) ==> old(self).overdue_at(t),
        ensures
            final(self).wf(),
            final(self).same_method(*old(self)),
            final(self).cuts@ == 0 ==> ({
                let (t, s) = old(self).env().method_region(old(self).start_cx(), old(self).start_state());
                r.view() == t && final(self).walked(*old(self), s)
            }),
            final(self).cuts@ > 0 ==> old(self).has_overdue(),
            old(self).untimed() ==> final(self).cuts@ == 0,
            late is Some || old(self).visits_left == 0 ==> r.view() == model::jump(old(self).env().cfg.entry)
                && final(self).walked(*old(self), old(self).start_state()),
            late is Some ==> final(self).cuts@ == 1,
            exists|doms: u64|
                final(self).guards == #[trigger] counted(
                    old(self).guards,
                    (old(self).visits_left - final(self).visits_left) as u64,
                    doms,
                    old(self).env().n(),
                ),
            final(self).copy_budget <= old(self).copy_budget,
            final(self).visits_left <= old(self).visits_left,
            final(self).groups_ok(final(self).structuring_groups@),
            old(self).env().n() > 0 ==> old(self).valid(r.view()),
    {
        let ghost e = self.env();
        let ghost o = *self;
        let n = self.cfg.blocks.len();
        let universe = self.code_set();
        let top = self.outermost_groups();
        let none: HashSet<usize> = HashSet::new();
        let cx = WalkCx {
            depth: 0,
            loops: copy_list(&self.loops_stack),
            in_switch: self.switch_depth > 0,
            arms: crate::structure::state::copy_arms(&self.case_arm_ctx),
            copies: 0,
        };
        let mut st = WalkState {
            claimed: HashSet::new(),
            tails: copy_set(&self.copied_tails),
            budget: self.copy_budget,
            visits: self.visits_left,
            structuring: copy_list(&self.structuring_groups),
            doms: 1,
            cuts: Ghost(0),
        };
        proof {
            assert(none@ =~= Set::empty());
            assert(st@ =~= self.start_state());
            assert(cx@ =~= self.start_cx());
        }
        let r = self.walk_unless(late, &cx, &mut st, self.cfg.entry, &universe, &none, &top, true);
        let used: u64 = self.visits_left - st.visits;
        self.guards.visits_total = self.guards.visits_total.wrapping_add(used);
        if self.guards.dom_on {
            self.guards.dom_calls = self.guards.dom_calls.wrapping_add(st.doms);
            self.guards.dom_blocks = self.guards.dom_blocks.wrapping_add(st.doms.wrapping_mul(n as u64));
        }
        self.copied_tails = st.tails;
        self.copy_budget = st.budget;
        self.visits_left = st.visits;
        self.structuring_groups = st.structuring;
        self.cuts = st.cuts;
        proof {
            assert(self.env() == e);
            assert(used == (o.visits_left - self.visits_left) as u64);
            assert(self.guards == counted(o.guards, (o.visits_left - self.visits_left) as u64, st.doms, e.n()));
        }
        r
    }

    fn code_set(&self) -> (r: HashSet<usize>)
        ensures
            r@ == self.env().code_blocks(),
            self.ids_ok(r@),
    {
        let ghost e = self.env();
        let mut r: HashSet<usize> = HashSet::new();
        let mut b: usize = 0;
        while b < self.cfg.blocks.len()
            invariant
                e == self.env(),
                b <= e.n(),
                forall|x: usize| #[trigger] r@.contains(x) <==> x < b && e.code_blocks().contains(x),
            decreases e.n() - b,
        {
            if self.cfg.blocks[b].ins_len != 0 {
                r.insert(b);
            }
            b += 1;
        }
        assert(r@ =~= e.code_blocks());
        r
    }
}

} // verus!
