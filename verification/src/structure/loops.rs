//! Loop membership, exits, and which try group a block opens.

use std::collections::{HashMap, HashSet};

use vstd::prelude::*;

use crate::sets::list_has;
use crate::structure::dominators;
use crate::structure::dominators::DomInfo;
use crate::structure::env::Env;
use crate::structure::graph;
use crate::structure::reach;
use crate::structure::reach::{can_reach_avoiding, can_reach_cfg_barred};
use crate::structure::structurer::Structurer;

verus! {

broadcast use vstd::std_specs::hash::group_hash_axioms;

impl Env {
    // -- order -------------------------------------------------------------------

    /// `b` put into a list ordered by start, behind equals.
    pub open spec fn placed(self, v: Seq<usize>, b: usize) -> Seq<usize>
        decreases v.len(),
    {
        if v.len() == 0 || self.start(v[v.len() - 1]) <= self.start(b) {
            v.push(b)
        } else {
            self.placed(v.drop_last(), b).push(v[v.len() - 1])
        }
    }

    /// Those of the first `k` blocks that are in `s`, ordered by start, then id.
    pub open spec fn ordered_upto(self, s: Set<usize>, k: nat) -> Seq<usize>
        decreases k,
    {
        if k == 0 {
            Seq::empty()
        } else {
            let v = self.ordered_upto(s, (k - 1) as nat);
            if s.contains((k - 1) as usize) {
                self.placed(v, (k - 1) as usize)
            } else {
                v
            }
        }
    }

    pub open spec fn ordered(self, s: Set<usize>) -> Seq<usize> {
        self.ordered_upto(s, self.n())
    }

    // -- members -------------------------------------------------------------------

    pub open spec fn loop_bars(self, loops: Seq<usize>, header: usize) -> Set<usize> {
        loops.to_set().insert(header)
    }

    /// `p` comes to the header without `s`.
    pub open spec fn returns_without(self, p: usize, header: usize, s: usize) -> bool {
        p == header || (p != s && reach::reached(
            self.cfg.flow_exc(self.exc(), Set::empty().insert(s)),
            p,
            header,
            8192,
        ))
    }

    /// The edge from `p` leaves the loop at `s`.
    pub open spec fn leaves_from(self, p: usize, header: usize, s: usize, universe: Set<usize>) -> bool {
        p == header || !universe.contains(p) || !self.returns_without(p, header, s)
    }

    /// `p` has another way that never comes back to the header.
    pub open spec fn parts_from(self, p: usize, header: usize, s: usize, bars: Set<usize>) -> bool {
        exists|k: int|
            0 <= k < self.succ(p).len() && #[trigger] self.succ(p)[k] != s && !self.reaches_exc(self.succ(p)[k], header, bars)
    }

    /// `s`, which does not come back to the header, is left to.
    pub open spec fn is_exit_edge(self, header: usize, s: usize, universe: Set<usize>, bars: Set<usize>) -> bool {
        ||| self.pred(s).len() == 0
        ||| exists|k: int| 0 <= k < self.pred(s).len() && self.leaves_from(#[trigger] self.pred(s)[k], header, s, universe)
        ||| forall|k: int| 0 <= k < self.pred(s).len() ==> self.parts_from(#[trigger] self.pred(s)[k], header, s, bars)
    }

    /// One protected range holds `p` and goes on to `s`.
    pub open spec fn range_spans(self, p: usize, s: usize) -> bool {
        self.start(s) > self.start(p) && exists|i: int|
            0 <= i < self.cfg.exc_ranges@.len() && (#[trigger] self.cfg.exc_ranges@[i]).start <= self.start(p)
                && self.start(p) < self.cfg.exc_ranges@[i].end && self.start(s) <= self.cfg.exc_ranges@[i].end
    }

    /// `s` ends the method inside the protected range of the members before it.
    pub open spec fn protected_tail(self, s: usize, members: Set<usize>) -> bool {
        &&& self.succ(s).len() == 0
        &&& self.pred(s).len() > 0
        &&& forall|k: int|
            0 <= k < self.pred(s).len() ==> members.contains(#[trigger] self.pred(s)[k]) && self.range_spans(
                self.pred(s)[k],
                s,
            )
    }

    /// `s` joins the members of the loop at `header`.
    pub open spec fn joins(
        self,
        header: usize,
        s: usize,
        members: Set<usize>,
        universe: Set<usize>,
        stop: Set<usize>,
        idom: Seq<usize>,
        loops: Seq<usize>,
    ) -> bool {
        let bars = self.loop_bars(loops, header);
        &&& !bars.contains(s)
        &&& universe.contains(s)
        &&& !stop.contains(s)
        &&& dominators::is_above(idom, header, s)
        &&& self.reaches_exc(s, header, bars) || !self.is_exit_edge(header, s, universe, bars) || self.protected_tail(
            s,
            members,
        )
    }

    /// The queue and the members after the successors from `k` on were looked at.
    pub open spec fn join_from(
        self,
        header: usize,
        list: Seq<usize>,
        k: nat,
        q: Seq<usize>,
        members: Set<usize>,
        universe: Set<usize>,
        stop: Set<usize>,
        idom: Seq<usize>,
        loops: Seq<usize>,
    ) -> (Seq<usize>, Set<usize>)
        decreases list.len() - k,
    {
        if k >= list.len() {
            (q, members)
        } else {
            let s = list[k as int];
            if s < self.n() && !members.contains(s) && self.joins(header, s, members, universe, stop, idom, loops) {
                self.join_from(header, list, k + 1, q.push(s), members.insert(s), universe, stop, idom, loops)
            } else {
                self.join_from(header, list, k + 1, q, members, universe, stop, idom, loops)
            }
        }
    }

    pub proof fn lemma_join_from(
        self,
        header: usize,
        list: Seq<usize>,
        k: nat,
        q: Seq<usize>,
        members: Set<usize>,
        universe: Set<usize>,
        stop: Set<usize>,
        idom: Seq<usize>,
        loops: Seq<usize>,
    )
        requires
            self.n() <= usize::MAX,
        ensures
            ({
                let (q2, m2) = self.join_from(header, list, k, q, members, universe, stop, idom, loops);
                (q2 == q && m2 == members) || graph::unseen(self.n(), m2) < graph::unseen(self.n(), members)
            }),
        decreases list.len() - k,
    {
        if k < list.len() {
            let s = list[k as int];
            if s < self.n() && !members.contains(s) && self.joins(header, s, members, universe, stop, idom, loops) {
                self.lemma_join_from(header, list, k + 1, q.push(s), members.insert(s), universe, stop, idom, loops);
                graph::lemma_unseen_insert(self.n(), members, s);
            } else {
                self.lemma_join_from(header, list, k + 1, q, members, universe, stop, idom, loops);
            }
        }
    }

    /// The members that the loop search from `q` gathers.
    pub open spec fn gathered(
        self,
        header: usize,
        q: Seq<usize>,
        members: Set<usize>,
        universe: Set<usize>,
        stop: Set<usize>,
        idom: Seq<usize>,
        loops: Seq<usize>,
    ) -> Set<usize>
        decreases graph::unseen(self.n(), members), q.len(),
    {
        if q.len() == 0 || self.n() > usize::MAX {
            members
        } else {
            let (q2, m2) = self.join_from(header, self.succ(q[0]), 0, q.skip(1), members, universe, stop, idom, loops);
            proof {
                self.lemma_join_from(header, self.succ(q[0]), 0, q.skip(1), members, universe, stop, idom, loops);
            }
            self.gathered(header, q2, m2, universe, stop, idom, loops)
        }
    }

    /// The members of the loop at `header`.
    pub open spec fn loop_members(self, header: usize, universe: Set<usize>, stop: Set<usize>, idom: Seq<usize>, loops: Seq<usize>) -> Set<
        usize,
    > {
        self.gathered(header, seq![header], Set::empty().insert(header), universe, stop, idom, loops)
    }

    /// The blocks behind an edge out of the loop.
    pub open spec fn exit_set(self, members: Set<usize>) -> Set<usize> {
        Set::new(
            |s: usize|
                !members.contains(s) && exists|m: usize|
                    m < self.n() && members.contains(m) && #[trigger] self.succ(m).contains(s),
        )
    }

    // -- the group that opens at a block ------------------------------------------------

    /// The group opens at the block and holds it whole.
    pub open spec fn opens(self, gi: usize, b: usize) -> bool {
        self.groups[gi as int].start == self.start(b) && self.groups[gi as int].end >= self.end(b)
    }

    /// The first active group, from `k` on, that opens at the block.
    pub open spec fn listed_group(self, active: Seq<usize>, b: usize, k: nat) -> Option<usize>
        decreases active.len() - k,
    {
        if k >= active.len() {
            None
        } else if self.opens(active[k as int], b) {
            Some(active[k as int])
        } else {
            self.listed_group(active, b, k + 1)
        }
    }

    /// An active group holds the block without opening there.
    pub open spec fn covered(self, active: Seq<usize>, b: usize) -> bool {
        exists|i: int|
            0 <= i < active.len() && self.groups[#[trigger] active[i] as int].start <= self.start(b)
                && self.groups[active[i] as int].end > self.start(b) && !self.opens(active[i], b)
    }

    /// Of the first `k` groups, the last that reaches furthest among those that
    /// open at the block and are not being structured.
    pub open spec fn widest_group(self, b: usize, structuring: Seq<usize>, k: nat) -> Option<usize>
        decreases k,
    {
        if k == 0 {
            None
        } else {
            let best = self.widest_group(b, structuring, (k - 1) as nat);
            let gi = (k - 1) as usize;
            if self.opens(gi, b) && !structuring.contains(gi) && (best matches Some(o) ==> self.groups[gi as int].end
                >= self.groups[o as int].end) {
                Some(gi)
            } else {
                best
            }
        }
    }

    pub open spec fn opening_group(self, b: usize, active: Seq<usize>, structuring: Seq<usize>) -> Option<usize> {
        if self.is_handler(b) {
            None
        } else {
            match self.listed_group(active, b, 0) {
                Some(g) => Some(g),
                None => if self.covered(active, b) {
                    None
                } else {
                    self.widest_group(b, structuring, self.groups.len())
                },
            }
        }
    }

    /// The edge from `p` back to `cur` comes from outside the group.
    pub open spec fn outer_back_edge(self, cur: usize, p: usize, gi: usize, idom: Seq<usize>, entry: usize) -> bool {
        let g = self.groups[gi as int];
        &&& p != cur
        &&& self.closes(cur, p, idom, entry)
        &&& self.end(p) <= g.start || self.start(p) >= g.end || (idom[p as int] == p && p != entry && self.returns_into(
            p,
            g.start,
            g.end,
        ))
    }

    /// A loop around the group starts at `cur`: the loop comes first.
    pub open spec fn looped_around(self, cur: usize, gi: usize, universe: Set<usize>, idom: Seq<usize>, entry: usize, loops: Seq<usize>) -> bool {
        &&& self.is_loop_header(cur, universe, idom, entry, loops) || self.headers.contains(cur) || self.retry.contains(cur)
        &&& exists|k: int|
            0 <= k < self.pred(cur).len() && self.outer_back_edge(cur, #[trigger] self.pred(cur)[k], gi, idom, entry)
    }

    /// The try group to structure at `cur`.
    pub open spec fn group_here(
        self,
        cur: usize,
        universe: Set<usize>,
        active: Seq<usize>,
        structuring: Seq<usize>,
        pre: bool,
        idom: Seq<usize>,
        entry: usize,
        loops: Seq<usize>,
    ) -> Option<usize> {
        match self.opening_group(cur, active, structuring) {
            Some(gi) => if pre || !self.looped_around(cur, gi, universe, idom, entry, loops) {
                Some(gi)
            } else {
                None
            },
            None => None,
        }
    }
}

impl<'a> Structurer<'a> {
    fn place(&self, v: Vec<usize>, b: usize) -> (r: Vec<usize>)
        requires
            self.wf(),
            b < self.env().n(),
            forall|i: int| 0 <= i < v@.len() ==> #[trigger] v@[i] < self.env().n(),
        ensures
            r@ == self.env().placed(v@, b),
            forall|i: int| 0 <= i < r@.len() ==> #[trigger] r@[i] < self.env().n(),
        decreases v@.len(),
    {
        let mut v = v;
        let ghost v0 = v@;
        if v.len() == 0 || self.cfg.blocks[v[v.len() - 1]].start <= self.cfg.blocks[b].start {
            v.push(b);
            return v;
        }
        let last = v.pop().unwrap();
        assert(v@ == v0.drop_last());
        let mut r = self.place(v, b);
        r.push(last);
        r
    }

    /// The blocks of a set, ordered by start, then id.
    pub(crate) fn in_order(&self, s: &HashSet<usize>) -> (r: Vec<usize>)
        requires
            self.wf(),
        ensures
            r@ == self.env().ordered(s@),
            forall|i: int| 0 <= i < r@.len() ==> #[trigger] r@[i] < self.env().n(),
    {
        let ghost e = self.env();
        let mut r: Vec<usize> = Vec::new();
        let mut b: usize = 0;
        while b < self.cfg.blocks.len()
            invariant
                self.wf(),
                e == self.env(),
                b <= e.n(),
                r@ == e.ordered_upto(s@, b as nat),
                forall|i: int| 0 <= i < r@.len() ==> #[trigger] r@[i] < e.n(),
            decreases e.n() - b,
        {
            if s.contains(&b) {
                r = self.place(r, b);
            }
            b += 1;
        }
        r
    }

    #[verifier::loop_isolation(false)]
    fn does_part(&self, exc: &HashMap<usize, Vec<usize>>, p: usize, header: usize, s: usize, bars: &HashSet<usize>) -> (r: bool)
        requires
            self.wf(),
            p < self.env().n(),
            reach::lists_of(exc@) == self.env().exc(),
            reach::exc_ok(self.env().n(), self.env().exc()),
        ensures
            r == self.env().parts_from(p, header, s, bars@),
    {
        let ghost e = self.env();
        let list = self.succ_of(p);
        let mut k: usize = 0;
        while k < list.len()
            invariant
                k <= list@.len(),
                forall|j: int|
                    0 <= j < k ==> !(#[trigger] e.succ(p)[j] != s && !e.reaches_exc(e.succ(p)[j], header, bars@)),
            decreases list@.len() - k,
        {
            let x = list[k];
            assert(x == e.succ(p)[k as int]);
            if x != s && !can_reach_cfg_barred(self.cfg, exc, x, header, bars, 8192) {
                return true;
            }
            k += 1;
        }
        false
    }

    #[verifier::loop_isolation(false)]
    fn is_left_to(&self, exc: &HashMap<usize, Vec<usize>>, header: usize, s: usize, universe: &HashSet<usize>, bars: &HashSet<usize>) -> (r: bool)
        requires
            self.wf(),
            s < self.env().n(),
            reach::lists_of(exc@) == self.env().exc(),
            reach::exc_ok(self.env().n(), self.env().exc()),
        ensures
            r == self.env().is_exit_edge(header, s, universe@, bars@),
    {
        let ghost e = self.env();
        let preds = self.pred_of(s);
        let mut k: usize = 0;
        while k < preds.len()
            invariant
                k <= preds@.len(),
                forall|j: int| 0 <= j < k ==> !e.leaves_from(#[trigger] e.pred(s)[j], header, s, universe@),
            decreases preds@.len() - k,
        {
            let p = preds[k];
            assert(p == e.pred(s)[k as int]);
            if p == header || !universe.contains(&p) || !can_reach_avoiding(self.cfg, exc, p, header, s, 8192) {
                assert(e.leaves_from(e.pred(s)[k as int], header, s, universe@));
                return true;
            }
            k += 1;
        }
        k = 0;
        while k < preds.len()
            invariant
                k <= preds@.len(),
                forall|j: int| 0 <= j < k ==> e.parts_from(#[trigger] e.pred(s)[j], header, s, bars@),
            decreases preds@.len() - k,
        {
            if !self.does_part(exc, preds[k], header, s, bars) {
                assert(!e.parts_from(e.pred(s)[k as int], header, s, bars@));
                return false;
            }
            k += 1;
        }
        true
    }

    #[verifier::loop_isolation(false)]
    fn does_range_span(&self, p: usize, s: usize) -> (r: bool)
        requires
            self.wf(),
            p < self.env().n(),
            s < self.env().n(),
        ensures
            r == self.env().range_spans(p, s),
    {
        let ps = self.cfg.blocks[p].start;
        let ss = self.cfg.blocks[s].start;
        if ss <= ps {
            return false;
        }
        let mut i: usize = 0;
        while i < self.cfg.exc_ranges.len()
            invariant
                i <= self.cfg.exc_ranges@.len(),
                forall|j: int|
                    0 <= j < i ==> !((#[trigger] self.cfg.exc_ranges@[j]).start <= ps && ps < self.cfg.exc_ranges@[j].end && ss
                        <= self.cfg.exc_ranges@[j].end),
            decreases self.cfg.exc_ranges@.len() - i,
        {
            let r = &self.cfg.exc_ranges[i];
            if r.start <= ps && ps < r.end && ss <= r.end {
                assert(self.env().cfg.exc_ranges@[i as int].start <= ps);
                return true;
            }
            i += 1;
        }
        false
    }

    #[verifier::loop_isolation(false)]
    fn is_protected_tail(&self, s: usize, members: &HashSet<usize>) -> (r: bool)
        requires
            self.wf(),
            s < self.env().n(),
        ensures
            r == self.env().protected_tail(s, members@),
    {
        let ghost e = self.env();
        let preds = self.pred_of(s);
        if self.succ_of(s).len() != 0 || preds.len() == 0 {
            return false;
        }
        let mut k: usize = 0;
        while k < preds.len()
            invariant
                k <= preds@.len(),
                forall|j: int|
                    0 <= j < k ==> members@.contains(#[trigger] e.pred(s)[j]) && e.range_spans(e.pred(s)[j], s),
            decreases preds@.len() - k,
        {
            if !members.contains(&preds[k]) || !self.does_range_span(preds[k], s) {
                assert(!(members@.contains(e.pred(s)[k as int]) && e.range_spans(e.pred(s)[k as int], s)));
                return false;
            }
            k += 1;
        }
        true
    }

    /// The members of the loop at `header`.
    #[verifier::loop_isolation(false)]
    pub(crate) fn members_of_loop(
        &self,
        header: usize,
        universe: &HashSet<usize>,
        stop: &HashSet<usize>,
        dom: &DomInfo,
        loops: &Vec<usize>,
    ) -> (r: HashSet<usize>)
        requires
            self.wf(),
            header < self.env().n(),
            dom.wf(),
            dom.idom@.len() == self.env().n(),
        ensures
            r@ == self.env().loop_members(header, universe@, stop@, dom.idom@, loops@),
            forall|x: usize| #[trigger] r@.contains(x) ==> x < self.env().n(),
    {
        let ghost e = self.env();
        let ghost want = e.loop_members(header, universe@, stop@, dom.idom@, loops@);
        let exc = self.exc_succ();
        let mut bars: HashSet<usize> = HashSet::new();
        crate::sets::extend_seq(&mut bars, loops);
        bars.insert(header);
        assert(bars@ =~= e.loop_bars(loops@, header));
        let mut members: HashSet<usize> = HashSet::new();
        members.insert(header);
        let mut q: Vec<usize> = Vec::new();
        q.push(header);
        let mut head: usize = 0;
        assert(q@.skip(0) =~= seq![header]);
        assert(members@ =~= Set::empty().insert(header));
        while head < q.len()
            invariant
                head <= q@.len(),
                forall|i: int| 0 <= i < q@.len() ==> #[trigger] q@[i] < e.n(),
                forall|x: usize| #[trigger] members@.contains(x) ==> x < e.n(),
                e.gathered(header, q@.skip(head as int), members@, universe@, stop@, dom.idom@, loops@) == want,
            decreases graph::unseen(e.n(), members@), q@.len() - head,
        {
            let b = q[head];
            let ghost rest = q@.skip(head as int);
            assert(rest[0] == b);
            head += 1;
            assert(rest.skip(1) =~= q@.skip(head as int));
            let list = self.succ_of(b);
            let ghost goal = e.join_from(
                header,
                list@,
                0,
                q@.skip(head as int),
                members@,
                universe@,
                stop@,
                dom.idom@,
                loops@,
            );
            proof {
                e.lemma_join_from(header, list@, 0, q@.skip(head as int), members@, universe@, stop@, dom.idom@, loops@);
            }
            let ghost m0 = members@;
            let ghost q0 = q@;
            let mut k: usize = 0;
            while k < list.len()
                invariant
                    k <= list@.len(),
                    head <= q@.len(),
                    forall|i: int| 0 <= i < q@.len() ==> #[trigger] q@[i] < e.n(),
                    forall|x: usize| #[trigger] members@.contains(x) ==> x < e.n(),
                    e.join_from(
                        header,
                        list@,
                        k as nat,
                        q@.skip(head as int),
                        members@,
                        universe@,
                        stop@,
                        dom.idom@,
                        loops@,
                    ) == goal,
                decreases list@.len() - k,
            {
                let s = list[k];
                if !members.contains(&s) && !bars.contains(&s) && universe.contains(&s) && !stop.contains(&s)
                    && dom.dominates(header, s) && (can_reach_cfg_barred(self.cfg, &exc, s, header, &bars, 8192)
                    || !self.is_left_to(&exc, header, s, universe, &bars) || self.is_protected_tail(s, &members)) {
                    assert(e.joins(header, s, members@, universe@, stop@, dom.idom@, loops@));
                    members.insert(s);
                    let ghost q1 = q@;
                    q.push(s);
                    assert(q@.skip(head as int) =~= q1.skip(head as int).push(s));
                }
                k += 1;
            }
            proof {
                assert((q@.skip(head as int), members@) == goal);
                if members@ == m0 {
                    assert(q@.skip(head as int) == q0.skip(head as int));
                    assert(q@.skip(head as int).len() == q@.len() - head);
                    assert(q0.skip(head as int).len() == q0.len() - head);
                }
            }
        }
        assert(q@.skip(head as int).len() == 0);
        members
    }

    /// The blocks behind the edges out of a loop.
    #[verifier::loop_isolation(false)]
    pub(crate) fn exits_of_loop(&self, members: &HashSet<usize>) -> (r: HashSet<usize>)
        requires
            self.wf(),
        ensures
            r@ == self.env().exit_set(members@),
            forall|x: usize| #[trigger] r@.contains(x) ==> x < self.env().n(),
    {
        let ghost e = self.env();
        let mut r: HashSet<usize> = HashSet::new();
        let mut s: usize = 0;
        while s < self.cfg.blocks.len()
            invariant
                s <= e.n(),
                forall|x: usize| #[trigger] r@.contains(x) <==> x < s && e.exit_set(members@).contains(x),
            decreases e.n() - s,
        {
            if !members.contains(&s) {
                let preds = self.pred_of(s);
                let mut hit = false;
                let mut k: usize = 0;
                while k < preds.len()
                    invariant
                        k <= preds@.len(),
                        hit == exists|j: int| 0 <= j < k && members@.contains(#[trigger] preds@[j]),
                    decreases preds@.len() - k,
                {
                    if members.contains(&preds[k]) {
                        hit = true;
                        assert(members@.contains(preds@[k as int]));
                    }
                    k += 1;
                }
                proof {
                    if hit {
                        let j = choose|j: int| 0 <= j < k && members@.contains(#[trigger] preds@[j]);
                        let m = preds@[j];
                        assert(e.cfg.blocks@[s as int].pred@.contains(m));
                        assert(e.cfg.blocks@[m as int].succ@.contains(s));
                        assert(e.succ(m).contains(s));
                    } else if e.exit_set(members@).contains(s) {
                        let m = choose|m: usize| m < e.n() && members@.contains(m) && #[trigger] e.succ(m).contains(s);
                        assert(e.cfg.blocks@[m as int].succ@.contains(s));
                        assert(e.cfg.blocks@[s as int].pred@.contains(m));
                        let j = e.pred(s).index_of(m);
                        assert(members@.contains(preds@[j]));
                    }
                }
                if hit {
                    r.insert(s);
                }
            }
            s += 1;
        }
        assert forall|x: usize| e.exit_set(members@).contains(x) implies x < e.n() by {
            let m = choose|m: usize| m < e.n() && members@.contains(m) && #[trigger] e.succ(m).contains(x);
            let k = e.succ(m).index_of(x);
            assert(e.cfg.blocks@[m as int].succ@[k] < e.n());
        }
        assert(r@ =~= e.exit_set(members@));
        r
    }

    // -- the group that opens at a block ------------------------------------------------

    fn does_open(&self, gi: usize, b: usize) -> (r: bool)
        requires
            self.wf(),
            gi < self.groups@.len(),
            b < self.env().n(),
        ensures
            r == self.env().opens(gi, b),
    {
        assert(self.env().groups[gi as int] == self.groups@[gi as int]@);
        self.groups[gi].start == self.cfg.blocks[b].start && self.groups[gi].end >= self.cfg.blocks[b].end
    }

    #[verifier::loop_isolation(false)]
    fn group_opening(&self, b: usize, active: &Vec<usize>, structuring: &Vec<usize>) -> (r: Option<usize>)
        requires
            self.wf(),
            b < self.env().n(),
            self.groups_ok(active@),
        ensures
            r == self.env().opening_group(b, active@, structuring@),
            r matches Some(g) ==> g < self.groups@.len(),
    {
        let ghost e = self.env();
        if self.is_handler_block(b) {
            return None;
        }
        let pc = self.cfg.blocks[b].start;
        let mut i: usize = 0;
        while i < active.len()
            invariant
                i <= active@.len(),
                e.listed_group(active@, b, i as nat) == e.listed_group(active@, b, 0),
            decreases active@.len() - i,
        {
            if self.does_open(active[i], b) {
                return Some(active[i]);
            }
            i += 1;
        }
        i = 0;
        while i < active.len()
            invariant
                i <= active@.len(),
                forall|j: int|
                    0 <= j < i ==> !(e.groups[#[trigger] active@[j] as int].start <= e.start(b)
                        && e.groups[active@[j] as int].end > e.start(b) && !e.opens(active@[j], b)),
            decreases active@.len() - i,
        {
            let g = &self.groups[active[i]];
            assert(e.groups[active@[i as int] as int] == g@);
            if g.start <= pc && g.end > pc && !self.does_open(active[i], b) {
                assert(e.groups[active@[i as int] as int].start <= e.start(b));
                return None;
            }
            i += 1;
        }
        let mut best: Option<usize> = None;
        let mut gi: usize = 0;
        while gi < self.groups.len()
            invariant
                gi <= self.groups@.len(),
                best == e.widest_group(b, structuring@, gi as nat),
                best matches Some(g) ==> g < self.groups@.len(),
            decreases self.groups@.len() - gi,
        {
            if self.does_open(gi, b) && !list_has(structuring, gi) {
                assert(e.groups[gi as int] == self.groups@[gi as int]@);
                let better = match best {
                    None => true,
                    Some(o) => {
                        assert(e.groups[o as int] == self.groups@[o as int]@);
                        self.groups[gi].end >= self.groups[o].end
                    },
                };
                if better {
                    best = Some(gi);
                }
            }
            gi += 1;
        }
        best
    }

    #[verifier::loop_isolation(false)]
    fn is_looped_around(&self, cur: usize, gi: usize, universe: &HashSet<usize>, dom: &DomInfo, entry: usize, loops: &Vec<usize>) -> (r: bool)
        requires
            self.wf(),
            cur < self.env().n(),
            gi < self.groups@.len(),
            dom.wf(),
            dom.idom@.len() == self.env().n(),
        ensures
            r == self.env().looped_around(cur, gi, universe@, dom.idom@, entry, loops@),
    {
        let ghost e = self.env();
        if !(self.is_header(cur, universe, dom, entry, loops) || self.sese_loop_headers.contains(&cur)
            || self.sese_exc_retry_headers.contains(&cur)) {
            return false;
        }
        let g = &self.groups[gi];
        assert(e.groups[gi as int] == g@);
        let preds = self.pred_of(cur);
        let mut k: usize = 0;
        while k < preds.len()
            invariant
                k <= preds@.len(),
                forall|j: int| 0 <= j < k ==> !e.outer_back_edge(cur, #[trigger] e.pred(cur)[j], gi, dom.idom@, entry),
            decreases preds@.len() - k,
        {
            let p = preds[k];
            assert(p == e.pred(cur)[k as int]);
            if p != cur && self.does_close(cur, p, dom, entry) && (self.cfg.blocks[p].end <= g.start
                || self.cfg.blocks[p].start >= g.end || (dom.idom[p] == p && p != entry && self.does_return_into(
                p,
                g.start,
                g.end,
            ))) {
                assert(e.outer_back_edge(cur, e.pred(cur)[k as int], gi, dom.idom@, entry));
                return true;
            }
            k += 1;
        }
        false
    }

    /// The try group to structure at `cur`.
    pub(crate) fn group_at(
        &self,
        cur: usize,
        universe: &HashSet<usize>,
        active: &Vec<usize>,
        structuring: &Vec<usize>,
        pre: bool,
        dom: &DomInfo,
        entry: usize,
        loops: &Vec<usize>,
    ) -> (r: Option<usize>)
        requires
            self.wf(),
            cur < self.env().n(),
            self.groups_ok(active@),
            dom.wf(),
            dom.idom@.len() == self.env().n(),
        ensures
            r == self.env().group_here(cur, universe@, active@, structuring@, pre, dom.idom@, entry, loops@),
            r matches Some(g) ==> g < self.groups@.len(),
    {
        match self.group_opening(cur, active, structuring) {
            Some(gi) => if pre || !self.is_looped_around(cur, gi, universe, dom, entry, loops) {
                Some(gi)
            } else {
                None
            },
            None => None,
        }
    }
}

} // verus!
