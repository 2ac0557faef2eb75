//! Shared tails, switch follows and pure branches.

use std::collections::HashSet;

use vstd::prelude::*;

use crate::sets::{copy_set, extend_set, list_has};
use crate::structure::env;
use crate::structure::graph::{bypass_flows_to, reachable_within};
use crate::structure::merge_point::confluence;
use crate::structure::query::is_sets_local;
use crate::structure::region::Region;
use crate::structure::scope::{flood_within, outside_of};
use crate::structure::structurer::Structurer;
use crate::ir::Term;

verus! {

broadcast use vstd::std_specs::hash::group_hash_axioms;

impl<'a> Structurer<'a> {
    fn does_have_content(&self, e: usize, b: usize, stop: &HashSet<usize>, loops: &Vec<usize>, fuel: usize) -> (r: bool)
        requires
            self.wf(),
            b < self.env().n(),
        ensures
            r == self.env().has_content(e, b, stop@, loops@, fuel as nat),
        decreases fuel,
    {
        if fuel == 0 {
            return false;
        }
        if !self.is_quiet(b) || self.ends_cond(b) || self.ends_switch(b) {
            return true;
        }
        match self.hop_of(b) {
            Some(y) => y != e && !stop.contains(&y) && !list_has(loops, y) && self.does_have_content(
                e,
                y,
                stop,
                loops,
                fuel - 1,
            ),
            None => false,
        }
    }

    /// Something happens behind the loop exit `e` before it comes back or ends.
    pub fn exit_has_content(&self, e: usize, stop: &HashSet<usize>) -> (r: bool)
        requires
            self.wf(),
            e < self.env().n(),
        ensures
            r == self.env().has_content(e, e, stop@, self.loops_stack@, 16),
    {
        self.does_have_content(e, e, stop, &self.loops_stack, 16)
    }

    fn does_go_on(&self, s: usize, universe: &HashSet<usize>) -> (r: bool)
        requires
            self.wf(),
            s < self.env().n(),
        ensures
            r == self.env().goes_on(s, universe@),
    {
        if !universe.contains(&s) {
            return false;
        }
        let list = self.succ_of(s);
        let mut k: usize = 0;
        while k < list.len()
            invariant
                list@ == self.env().succ(s),
                k <= list@.len(),
                universe@.contains(s),
                forall|j: int| 0 <= j < k ==> !universe@.contains(#[trigger] self.env().succ(s)[j]),
            decreases list@.len() - k,
        {
            if universe.contains(&list[k]) {
                assert(universe@.contains(self.env().succ(s)[k as int]));
                return true;
            }
            k += 1;
        }
        false
    }

    fn does_lead(&self, d: &HashSet<usize>, bar: &HashSet<usize>, t: usize, p: usize) -> (r: bool)
        requires
            self.wf(),
            t < self.env().n(),
            bar@ == crate::structure::scope::outside(*self.cfg, d@),
        ensures
            r == self.env().leads(d@, t, p),
    {
        t == p || (d.contains(&t) && bypass_flows_to(self.cfg, t, p, bar))
    }

    #[verifier::loop_isolation(false)]
    fn does_some_case_lead(&self, d: &HashSet<usize>, bar: &HashSet<usize>, b: usize, p: usize) -> (r: bool)
        requires
            self.wf(),
            b < self.env().n(),
            bar@ == crate::structure::scope::outside(*self.cfg, d@),
        ensures
            r == self.env().some_case_leads(d@, b, p),
    {
        let ghost e = self.env();
        let list = self.succ_of(b);
        let mut k: usize = 0;
        while k < list.len()
            invariant
                k <= list@.len(),
                forall|j: int| 0 <= j < k ==> !e.leads(d@, #[trigger] e.succ(b)[j], p),
            decreases list@.len() - k,
        {
            if self.does_lead(d, bar, list[k], p) {
                assert(e.leads(d@, e.succ(b)[k as int], p));
                return true;
            }
            k += 1;
        }
        false
    }

    #[verifier::loop_isolation(false)]
    fn is_fed_by(&self, d: &HashSet<usize>, bar: &HashSet<usize>, b: usize, c: usize) -> (r: bool)
        requires
            self.wf(),
            b < self.env().n(),
            c < self.env().n(),
            bar@ == crate::structure::scope::outside(*self.cfg, d@),
        ensures
            r == self.env().fed_by(d@, b, c),
    {
        let ghost e = self.env();
        let list = self.pred_of(c);
        let mut k: usize = 0;
        while k < list.len()
            invariant
                k <= list@.len(),
                forall|j: int| 0 <= j < k ==> e.some_case_leads(d@, b, #[trigger] e.pred(c)[j]),
            decreases list@.len() - k,
        {
            if !self.does_some_case_lead(d, bar, b, list[k]) {
                assert(!e.some_case_leads(d@, b, e.pred(c)[k as int]));
                return false;
            }
            k += 1;
        }
        true
    }

    #[verifier::loop_isolation(false)]
    fn is_nested_merge(&self, cur: usize, d: &HashSet<usize>, bar: &HashSet<usize>, c: usize) -> (r: bool)
        requires
            self.wf(),
            c < self.env().n(),
            bar@ == crate::structure::scope::outside(*self.cfg, d@),
        ensures
            r == self.env().nested_merge(cur, d@, c),
    {
        let ghost e = self.env();
        if self.pred_of(c).len() < 2 {
            return false;
        }
        let mut b: usize = 0;
        while b < self.cfg.blocks.len()
            invariant
                b <= e.n(),
                forall|x: usize|
                    x < b && x != cur && e.term(x) is Switch && d@.contains(x) ==> !#[trigger] e.fed_by(d@, x, c),
            decreases e.n() - b,
        {
            if b != cur && self.ends_switch(b) && d.contains(&b) && self.is_fed_by(d, bar, b, c) {
                return true;
            }
            b += 1;
        }
        false
    }

    #[verifier::loop_isolation(false)]
    fn is_value_merge(&self, d: &HashSet<usize>, c: usize) -> (r: bool)
        requires
            self.wf(),
            c < self.env().n(),
        ensures
            r == self.env().value_merge(d@, c),
    {
        let ghost e = self.env();
        let list = self.pred_of(c);
        let mut any = false;
        let mut k: usize = 0;
        while k < list.len()
            invariant
                k <= list@.len(),
                any == exists|j: int| 0 <= j < k && d@.contains(#[trigger] e.pred(c)[j]),
                forall|j: int| 0 <= j < k && d@.contains(#[trigger] e.pred(c)[j]) ==> e.pushes_one(e.pred(c)[j]),
            decreases list@.len() - k,
        {
            let p = list[k];
            assert(p == e.pred(c)[k as int]);
            if d.contains(&p) {
                any = true;
                if !(self.is_quiet(p) && self.results[p].out_stack.len() == 1 && self.succ_of(p).len() == 1) {
                    assert(!e.pushes_one(e.pred(c)[k as int]));
                    return false;
                }
            }
            k += 1;
        }
        any
    }

    #[verifier::loop_isolation(false)]
    fn is_private_end(&self, cur: usize, d: &HashSet<usize>, c: usize) -> (r: bool)
        requires
            self.wf(),
            c < self.env().n(),
            cur < self.env().n(),
        ensures
            r == self.env().private_end(cur, d@, c),
    {
        let ghost e = self.env();
        if !self.ends_abrupt(c) || self.succ_of(cur).len() <= 1 {
            return false;
        }
        let list = self.pred_of(c);
        let mut k: usize = 0;
        while k < list.len()
            invariant
                k <= list@.len(),
                forall|j: int| 0 <= j < k ==> d@.contains(#[trigger] e.pred(c)[j]) || e.pred(c)[j] == cur,
            decreases list@.len() - k,
        {
            if !d.contains(&list[k]) && list[k] != cur {
                assert(!d@.contains(e.pred(c)[k as int]));
                return false;
            }
            k += 1;
        }
        true
    }

    /// Where the cases of the switch at `cur` come together.
    #[verifier::loop_isolation(false)]
    pub(crate) fn switch_follow(&self, cur: usize, universe: &HashSet<usize>) -> (r: Option<usize>)
        requires
            self.wf(),
            cur < self.env().n(),
        ensures
            r == self.env().switch_follow(cur, universe@),
            r matches Some(c) ==> c < self.env().n(),
    {
        let ghost e = self.env();
        let list = self.succ_of(cur);
        let mut live: Vec<usize> = Vec::new();
        let mut k: usize = 0;
        while k < list.len()
            invariant
                k <= list@.len(),
                live@ == e.live_cases(cur, universe@, k as nat),
                forall|i: int| 0 <= i < live@.len() ==> #[trigger] live@[i] < e.n(),
            decreases list@.len() - k,
        {
            if self.does_go_on(list[k], universe) {
                live.push(list[k]);
            }
            k += 1;
        }
        if live.len() == 0 {
            return None;
        }
        let mut free = copy_set(universe);
        free.remove(&cur);
        assert(free@ =~= universe@.remove(cur));
        if live.len() > 1 {
            return confluence(self.cfg, &live, &free, Some(cur));
        }
        let d = flood_within(self.cfg, live[0], &free);
        let bar = outside_of(self.cfg, &d);
        let mut best: Option<usize> = None;
        let mut c: usize = 0;
        while c < self.cfg.blocks.len()
            invariant
                c <= e.n(),
                best == e.first_follow(cur, d@, c as nat),
                best matches Some(b) ==> b < e.n(),
            decreases e.n() - c,
        {
            if d.contains(&c) && self.pred_of(c).len() >= 2 && !self.is_nested_merge(cur, &d, &bar, c)
                && !self.is_value_merge(&d, c) && !self.is_private_end(cur, &d, c) {
                let better = match best {
                    None => true,
                    Some(b) => self.cfg.blocks[c].start < self.cfg.blocks[b].start,
                };
                if better {
                    best = Some(c);
                }
            }
            c += 1;
        }
        best
    }

    // -- shared tails -----------------------------------------------------------

    #[verifier::loop_isolation(false)]
    fn does_reach_return(&self, b: usize) -> (r: bool)
        requires
            self.wf(),
            b < self.env().n(),
        ensures
            r == self.env().any_return(seq![b], Set::empty(), 4096),
    {
        let ghost e = self.env();
        let mut q: Vec<usize> = Vec::new();
        q.push(b);
        let mut head: usize = 0;
        let mut seen: HashSet<usize> = HashSet::new();
        let mut fuel: usize = 4096;
        assert(q@.skip(0) =~= seq![b]);
        assert(seen@ =~= Set::empty());
        while head < q.len() && fuel > 0
            invariant
                head <= q@.len(),
                forall|i: int| 0 <= i < q@.len() ==> #[trigger] q@[i] < e.n(),
                e.any_return(q@.skip(head as int), seen@, fuel as nat) == e.any_return(seq![b], Set::empty(), 4096),
            decreases fuel,
        {
            let x = q[head];
            let ghost rest = q@.skip(head as int);
            assert(rest[0] == x);
            head += 1;
            fuel -= 1;
            assert(rest.skip(1) =~= q@.skip(head as int));
            if seen.contains(&x) {
                continue;
            }
            if self.ends_return(x) {
                return true;
            }
            seen.insert(x);
            let list = self.succ_of(x);
            let ghost q0 = q@;
            let mut i: usize = 0;
            while i < list.len()
                invariant
                    i <= list@.len(),
                    q@ == q0 + list@.take(i as int),
                decreases list@.len() - i,
            {
                q.push(list[i]);
                i += 1;
                assert(list@.take(i as int) =~= list@.take(i - 1).push(list@[i - 1]));
            }
            assert(list@.take(i as int) =~= list@);
            assert(q@.skip(head as int) =~= rest.skip(1) + list@);
        }
        false
    }

    /// Many ways meet at `b` and a return lies behind.
    #[verifier::loop_isolation(false)]
    pub(crate) fn shared_tail_confluence(&self, b: usize) -> (r: bool)
        requires
            self.wf(),
            b < self.env().n(),
        ensures
            r == self.env().shared_tail(b),
    {
        let ghost e = self.env();
        if self.is_terminator_block(b) || self.is_handler_block(b) {
            return false;
        }
        if self.does_group_start(self.cfg.blocks[b].start) {
            return false;
        }
        let list = self.pred_of(b);
        let mut count: usize = 0;
        let mut k: usize = 0;
        while k < list.len()
            invariant
                k <= list@.len(),
                count <= k,
                count == e.normal_preds(b, k as nat),
            decreases list@.len() - k,
        {
            if !self.is_handler_block(list[k]) {
                count += 1;
            }
            k += 1;
        }
        count >= 8 && self.does_reach_return(b)
    }

    pub(crate) fn confluence_closure_small(&self, b: usize, barriers: &HashSet<usize>) -> (r: bool)
        requires
            self.wf(),
            b < self.env().n(),
        ensures
            r == self.env().small_closure(b, barriers@),
    {
        let reached = reachable_within(self.cfg, b, barriers);
        assert(reached@ == self.env().reach_within(b, barriers@));
        reached.len() <= 8
    }

    /// Every way from `b` ends in a return or throw soon.
    #[verifier::loop_isolation(false)]
    pub(crate) fn cfg_all_paths_terminate(&self, b: usize) -> (r: bool)
        requires
            self.wf(),
            b < self.env().n(),
        ensures
            r == self.env().all_end(seq![b], Set::empty(), 0),
    {
        let ghost e = self.env();
        let mut q: Vec<usize> = Vec::new();
        q.push(b);
        let mut head: usize = 0;
        let mut seen: HashSet<usize> = HashSet::new();
        let mut count: usize = 0;
        assert(q@.skip(0) =~= seq![b]);
        assert(seen@ =~= Set::empty());
        while head < q.len()
            invariant
                head <= q@.len(),
                count <= 64,
                forall|i: int| 0 <= i < q@.len() ==> #[trigger] q@[i] < e.n(),
                e.all_end(q@.skip(head as int), seen@, count as nat) == e.all_end(seq![b], Set::empty(), 0),
            decreases 65 - count, q@.len() - head,
        {
            let x = q[head];
            let ghost rest = q@.skip(head as int);
            assert(rest[0] == x);
            head += 1;
            assert(rest.skip(1) =~= q@.skip(head as int));
            if seen.contains(&x) {
                continue;
            }
            if count >= 64 {
                return false;
            }
            count += 1;
            seen.insert(x);
            if self.ends_abrupt(x) {
                continue;
            }
            let list = self.succ_of(x);
            if list.len() == 0 || (self.ends_plain(x) && list.len() != 1) {
                return false;
            }
            let ghost q0 = q@;
            let mut i: usize = 0;
            while i < list.len()
                invariant
                    i <= list@.len(),
                    q@ == q0 + list@.take(i as int),
                decreases list@.len() - i,
            {
                q.push(list[i]);
                i += 1;
                assert(list@.take(i as int) =~= list@.take(i - 1).push(list@[i - 1]));
            }
            assert(list@.take(i as int) =~= list@);
            assert(q@.skip(head as int) =~= rest.skip(1) + list@);
        }
        true
    }

    /// The one stop block that flow from `cur` comes to.
    #[verifier::loop_isolation(false)]
    pub(crate) fn appendix_target(&self, cur: usize, stop: &HashSet<usize>, claimed: &HashSet<usize>) -> (r: Option<usize>)
        requires
            self.wf(),
            cur < self.env().n(),
        ensures
            r == self.env().appendix_target(cur, stop@, claimed@),
            r matches Some(h) ==> h < self.env().n() && stop@.contains(h),
    {
        let ghost e = self.env();
        let mut bar = copy_set(stop);
        extend_set(&mut bar, claimed);
        bar.remove(&cur);
        assert(bar@ =~= stop@.union(claimed@).remove(cur));
        let mut found: Option<usize> = None;
        let mut h: usize = 0;
        while h < self.cfg.blocks.len()
            invariant
                h <= e.n(),
                found is None ==> forall|x: usize| x < h ==> !#[trigger] e.stop_hit(cur, stop@, claimed@, x),
                found matches Some(f) ==> f < h && e.stop_hit(cur, stop@, claimed@, f) && forall|x: usize|
                    x < h && #[trigger] e.stop_hit(cur, stop@, claimed@, x) ==> x == f,
            decreases e.n() - h,
        {
            if stop.contains(&h) && h != cur && bypass_flows_to(self.cfg, cur, h, &bar) {
                assert(e.stop_hit(cur, stop@, claimed@, h));
                if let Some(f) = found {
                    assert forall|x: usize| !e.only_stop_hit(cur, stop@, claimed@, x) by {
                        if e.only_stop_hit(cur, stop@, claimed@, x) {
                            assert(f == x && h == x);
                        }
                    }
                    return None;
                }
                found = Some(h);
            }
            h += 1;
        }
        assert forall|x: usize| #[trigger] e.stop_hit(cur, stop@, claimed@, x) implies x < e.n() by {
            let z = choose|z: usize| #[trigger] e.cfg.flow(bar@).reaches(cur, z) && e.cfg.succ(z).contains(x);
            e.cfg.lemma_flow_closed(bar@);
            e.cfg.flow(bar@).lemma_reach_nodes(cur, z);
            let k = e.cfg.succ(z).index_of(x);
            assert(e.cfg.blocks@[z as int].succ@[k] < e.n());
        }
        proof {
            if let Some(f) = found {
                assert(e.only_stop_hit(cur, stop@, claimed@, f));
            }
        }
        found
    }

    // -- pure branches ------------------------------------------------------------

    #[verifier::loop_isolation(false)]
    fn is_active_start(&self, b: usize, active: &Vec<usize>) -> (r: bool)
        requires
            self.wf(),
            b < self.env().n(),
        ensures
            r == self.env().active_start(b, active@),
    {
        let ghost e = self.env();
        let pc = self.cfg.blocks[b].start;
        let mut gi: usize = 0;
        while gi < self.groups.len()
            invariant
                gi <= self.groups@.len(),
                forall|j: usize| j < gi && #[trigger] active@.contains(j) ==> e.groups[j as int].start != pc,
            decreases self.groups@.len() - gi,
        {
            assert(e.groups[gi as int] == self.groups@[gi as int]@);
            if self.groups[gi].start == pc && list_has(active, gi) {
                return true;
            }
            gi += 1;
        }
        false
    }

    #[verifier::loop_isolation(false)]
    fn is_sets_only(&self, b: usize) -> (r: bool)
        requires
            self.wf(),
            b < self.env().n(),
        ensures
            r == self.env().sets_only(b),
    {
        let ghost e = self.env();
        if self.cfg.blocks[b].ins_len == 0 || self.succ_of(b).len() != 1 {
            return false;
        }
        match self.results[b].term {
            Term::Fallthrough => {},
            _ => {
                return false;
            },
        }
        let stmts = &self.results[b].stmts;
        let mut i: usize = 0;
        while i < stmts.len()
            invariant
                i <= stmts@.len(),
                forall|j: int| 0 <= j < i ==> env::sets_local(#[trigger] e.results[b as int].stmts@[j]),
            decreases stmts@.len() - i,
        {
            if !is_sets_local(&stmts[i]) {
                assert(!env::sets_local(e.results[b as int].stmts@[i as int]));
                return false;
            }
            i += 1;
        }
        true
    }

    fn is_absorbable(
        &self,
        b: usize,
        universe: &HashSet<usize>,
        stop: &HashSet<usize>,
        claimed: &HashSet<usize>,
        active: &Vec<usize>,
        structuring: &Vec<usize>,
        loops: &Vec<usize>,
    ) -> (r: bool)
        requires
            self.wf(),
            b < self.env().n(),
            self.groups_ok(active@),
            self.groups_ok(structuring@),
        ensures
            r == self.env().absorbable(b, universe@, stop@, claimed@, active@, structuring@, loops@),
    {
        if !universe.contains(&b) || self.is_active_start(b, active) || !self.is_sets_only(b) {
            return false;
        }
        let s = self.succ_of(b)[0];
        if universe.contains(&s) && !stop.contains(&s) {
            return false;
        }
        !(claimed.contains(&s) && !self.is_owned_cont(s, stop, claimed, active, structuring) && !stop.contains(&s)
            && !list_has(loops, s) && !self.does_write_final(s))
    }

    /// The branch that a block standing alone makes; the block is claimed.
    pub(crate) fn absorb_pure(
        &self,
        b: usize,
        universe: &HashSet<usize>,
        stop: &HashSet<usize>,
        claimed: &mut HashSet<usize>,
        active: &Vec<usize>,
        structuring: &Vec<usize>,
        loops: &Vec<usize>,
    ) -> (r: Option<Region>)
        requires
            self.wf(),
            b < self.env().n(),
            self.groups_ok(active@),
            self.groups_ok(structuring@),
        ensures
            r is Some == self.env().absorbable(b, universe@, stop@, old(claimed)@, active@, structuring@, loops@),
            r matches Some(x) ==> x.view() == self.env().absorbed(b, old(claimed)@) && final(claimed)@ == old(claimed)@.insert(b),
            r is None ==> final(claimed)@ == old(claimed)@,
    {
        if !self.is_absorbable(b, universe, stop, claimed, active, structuring, loops) {
            return None;
        }
        if claimed.contains(&b) {
            assert(claimed@ =~= claimed@.insert(b));
            if self.is_quiet(b) {
                return Some(Region::Empty);
            }
            return Some(Region::CopyStmts { block: b });
        }
        claimed.insert(b);
        Some(Region::Basic { block: b })
    }

    fn does_push(&self, b: usize) -> (r: bool)
        requires
            self.wf(),
            b < self.env().n(),
        ensures
            r == self.env().pushes(b),
    {
        self.cfg.blocks[b].ins_len != 0 && self.is_quiet(b) && self.results[b].out_stack.len() > 0 && self.hop_of(
            b,
        ).is_some()
    }

    /// Where the value pushes from `start` on lead.
    #[verifier::loop_isolation(false)]
    pub(crate) fn pure_chain_end(&self, start: usize, universe: &HashSet<usize>, stop: &HashSet<usize>, claimed: &HashSet<usize>) -> (r: Option<usize>)
        requires
            self.wf(),
            start < self.env().n(),
        ensures
            r == self.env().push_end(start, universe@, stop@, claimed@, 10_000),
            r matches Some(b) ==> b < self.env().n(),
    {
        let ghost e = self.env();
        let mut cur = start;
        let mut fuel: usize = 10_000;
        while fuel > 0
            invariant
                cur < e.n(),
                e.push_end(cur, universe@, stop@, claimed@, fuel as nat) == e.push_end(
                    start,
                    universe@,
                    stop@,
                    claimed@,
                    10_000,
                ),
            decreases fuel,
        {
            if !universe.contains(&cur) || stop.contains(&cur) {
                return None;
            }
            if !self.does_push(cur) {
                return Some(cur);
            }
            if claimed.contains(&cur) {
                return None;
            }
            match self.hop_of(cur) {
                Some(y) => {
                    cur = y;
                },
                None => {
                    return None;
                },
            }
            fuel -= 1;
        }
        None
    }

    /// Statement-free flow leads from `blk` to `merge` on every way.
    #[verifier::loop_isolation(false)]
    pub(crate) fn diamond_side(
        &self,
        blk: usize,
        merge: usize,
        universe: &HashSet<usize>,
        stop: &HashSet<usize>,
        claimed: &HashSet<usize>,
        visited: &mut HashSet<usize>,
        depth: usize,
    ) -> (r: bool)
        requires
            self.wf(),
            universe@.contains(blk) ==> blk < self.env().n(),
            depth <= 33,
        ensures
            (r, final(visited)@) == self.env().diamond(
                blk,
                merge,
                universe@,
                stop@,
                claimed@,
                old(visited)@,
                depth as nat,
                10_000,
            ),
        decreases 33 - depth,
    {
        if depth > 32 {
            return false;
        }
        let ghost e = self.env();
        let ghost want = e.diamond(blk, merge, universe@, stop@, claimed@, visited@, depth as nat, 10_000);
        let mut cur = blk;
        let mut fuel: usize = 10_000;
        while fuel > 0
            invariant
                universe@.contains(cur) ==> cur < e.n(),
                e.diamond(cur, merge, universe@, stop@, claimed@, visited@, depth as nat, fuel as nat) == want,
            decreases fuel,
        {
            if cur == merge {
                return true;
            }
            if stop.contains(&cur) || claimed.contains(&cur) || !universe.contains(&cur) {
                return false;
            }
            let list = self.succ_of(cur);
            if self.cfg.blocks[cur].ins_len == 0 {
                if list.len() == 0 {
                    return false;
                }
                visited.insert(cur);
                cur = list[0];
                fuel -= 1;
                continue;
            }
            if !self.is_quiet(cur) {
                return false;
            }
            if self.ends_plain(cur) {
                if list.len() != 1 {
                    return false;
                }
                visited.insert(cur);
                cur = list[0];
                fuel -= 1;
                continue;
            }
            if self.ends_cond(cur) && list.len() == 2 {
                visited.insert(cur);
                let mut inner: HashSet<usize> = HashSet::new();
                assert(inner@ =~= Set::empty());
                if !self.diamond_side(list[0], merge, universe, stop, claimed, &mut inner, depth + 1) {
                    return false;
                }
                if !self.diamond_side(list[1], merge, universe, stop, claimed, &mut inner, depth + 1) {
                    return false;
                }
                extend_set(visited, &inner);
                return true;
            }
            return false;
        }
        false
    }

    /// Both sides lead to `merge` without statements.
    pub fn branches_are_diamond(
        &self,
        a: usize,
        b: usize,
        merge: usize,
        universe: &HashSet<usize>,
        stop: &HashSet<usize>,
        claimed: &HashSet<usize>,
        visited: &mut HashSet<usize>,
    ) -> (r: bool)
        requires
            self.wf(),
            universe@.contains(a) ==> a < self.env().n(),
            universe@.contains(b) ==> b < self.env().n(),
        ensures
            (r, final(visited)@) == ({
                let (ok, s) = self.env().diamond(a, merge, universe@, stop@, claimed@, old(visited)@, 0, 10_000);
                if ok {
                    self.env().diamond(b, merge, universe@, stop@, claimed@, s, 0, 10_000)
                } else {
                    (false, s)
                }
            }),
    {
        self.diamond_side(a, merge, universe, stop, claimed, visited, 0) && self.diamond_side(
            b,
            merge,
            universe,
            stop,
            claimed,
            visited,
            0,
        )
    }
}

} // verus!
