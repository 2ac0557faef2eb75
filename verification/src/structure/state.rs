//! The state of a structuring walk.

use std::collections::HashSet;

use vstd::prelude::*;

use crate::sets::copy_list;
use crate::structure::dominators::DomInfo;
use crate::structure::model;
use crate::structure::model::{Cx, Frame, St, Ws};
use crate::structure::region;
use crate::structure::region::Region;

verus! {

broadcast use vstd::std_specs::hash::group_hash_axioms;

/// Where a walk stands.
pub struct WalkCx {
    pub depth: usize,
    pub loops: Vec<usize>,
    pub in_switch: bool,
    pub arms: Vec<(usize, Option<usize>, bool)>,
    pub copies: usize,
}

/// What a walk changes.
pub struct WalkState {
    pub claimed: HashSet<usize>,
    pub tails: HashSet<usize>,
    pub budget: u32,
    pub visits: u64,
    pub structuring: Vec<usize>,
    pub doms: u64,
    /// How many walks the deadline cut short.
    pub cuts: Ghost<nat>,
}

/// What stays fixed during one walk.
pub struct WalkFrame<'b> {
    pub entry: usize,
    pub universe: &'b HashSet<usize>,
    pub stop: &'b HashSet<usize>,
    pub active: &'b Vec<usize>,
    pub allow: bool,
    pub pre: bool,
    pub dom: DomInfo,
}

/// One walk between two blocks.
pub struct Work {
    pub parts: Vec<Region>,
    pub cur: usize,
    pub done: bool,
    pub first: bool,
    pub structured: HashSet<usize>,
}

impl View for WalkCx {
    type V = Cx;

    open spec fn view(&self) -> Cx {
        Cx {
            depth: self.depth as nat,
            loops: self.loops@,
            in_switch: self.in_switch,
            arms: self.arms@,
            copies: self.copies as nat,
        }
    }
}

impl View for WalkState {
    type V = St;

    open spec fn view(&self) -> St {
        St {
            claimed: self.claimed@,
            tails: self.tails@,
            budget: self.budget,
            visits: self.visits,
            structuring: self.structuring@,
            doms: self.doms,
        }
    }
}

impl<'b> View for WalkFrame<'b> {
    type V = Frame;

    open spec fn view(&self) -> Frame {
        Frame {
            entry: self.entry,
            universe: self.universe@,
            stop: self.stop@,
            active: self.active@,
            allow: self.allow,
            pre: self.pre,
            idom: self.dom.idom@,
        }
    }
}

/// The walk with what it changed so far.
pub open spec fn ws(w: Work, st: WalkState) -> Ws {
    Ws {
        parts: region::trees(w.parts@),
        cur: w.cur,
        done: w.done,
        first: w.first,
        structured: w.structured@,
        st: st@,
    }
}

pub(crate) fn copy_arms(v: &Vec<(usize, Option<usize>, bool)>) -> (r: Vec<(usize, Option<usize>, bool)>)
    ensures
        r@ == v@,
{
    let mut r: Vec<(usize, Option<usize>, bool)> = Vec::new();
    let mut i: usize = 0;
    while i < v.len()
        invariant
            i <= v@.len(),
            r@ == v@.take(i as int),
        decreases v@.len() - i,
    {
        r.push(v[i]);
        i += 1;
        assert(v@.take(i as int) =~= v@.take(i - 1).push(v@[i - 1]));
    }
    assert(v@.take(i as int) =~= v@);
    r
}

impl WalkCx {
    fn copy(&self) -> (r: WalkCx)
        ensures
            r@ == self@,
    {
        WalkCx {
            depth: self.depth,
            loops: copy_list(&self.loops),
            in_switch: self.in_switch,
            arms: copy_arms(&self.arms),
            copies: self.copies,
        }
    }

    pub(crate) fn deeper(&self) -> (r: WalkCx)
        requires
            self.depth < 256,
        ensures
            r@ == self@.deeper(),
    {
        let mut r = self.copy();
        r.depth = self.depth + 1;
        r
    }

    pub(crate) fn in_loop(&self, h: usize) -> (r: WalkCx)
        ensures
            r@ == self@.in_loop(h),
    {
        let mut r = self.copy();
        r.loops.push(h);
        r
    }

    pub(crate) fn switching(&self) -> (r: WalkCx)
        ensures
            r@ == self@.switching(),
    {
        let mut r = self.copy();
        r.in_switch = true;
        r
    }

    pub(crate) fn in_arm(&self, head: usize, follow: Option<usize>, pattern: bool) -> (r: WalkCx)
        ensures
            r@ == self@.in_arm(head, follow, pattern),
    {
        let mut r = self.copy();
        r.arms.push((head, follow, pattern));
        r
    }

    pub(crate) fn copying(&self) -> (r: WalkCx)
        requires
            self.copies < 4,
        ensures
            r@ == self@.copying(),
    {
        let mut r = self.copy();
        r.copies = self.copies + 1;
        r
    }

    pub(crate) fn is_in_other_loop(&self, b: usize) -> (r: bool)
        ensures
            r == self@.in_other_loop(b),
    {
        self.loops.len() > 0 && self.loops[self.loops.len() - 1] != b
    }

    pub(crate) fn follows_of_arms(&self) -> (r: HashSet<usize>)
        ensures
            r@ == self@.arm_follows(),
    {
        let mut r: HashSet<usize> = HashSet::new();
        let mut i: usize = 0;
        while i < self.arms.len()
            invariant
                i <= self.arms@.len(),
                forall|f: usize|
                    #[trigger] r@.contains(f) <==> exists|j: int| 0 <= j < i && (#[trigger] self.arms@[j]).1 == Some(f),
            decreases self.arms@.len() - i,
        {
            let ghost r0 = r@;
            let a = self.arms[i];
            if let Some(f) = a.1 {
                r.insert(f);
            }
            assert forall|f: usize|
                #[trigger] r@.contains(f) <==> exists|j: int| 0 <= j < i + 1 && (#[trigger] self.arms@[j]).1 == Some(f) by {
                if r0.contains(f) {
                    let j = choose|j: int| 0 <= j < i && (#[trigger] self.arms@[j]).1 == Some(f);
                    assert(self.arms@[j].1 == Some(f));
                }
                if a.1 == Some(f) {
                    assert(self.arms@[i as int].1 == Some(f));
                }
                assert(r0.contains(f) ==> r@.contains(f));
            }
            i += 1;
        }
        assert(r@ =~= self@.arm_follows());
        r
    }
}

impl WalkState {
    /// The claimed blocks, leaving none.
    pub(crate) fn take_claimed(&mut self) -> (r: HashSet<usize>)
        ensures
            r@ == old(self)@.claimed,
            final(self)@ == old(self)@.with_claimed(Set::empty()),
            final(self).cuts == old(self).cuts,
    {
        let mut fresh: HashSet<usize> = HashSet::new();
        assert(fresh@ =~= Set::empty());
        std::mem::swap(&mut self.claimed, &mut fresh);
        fresh
    }

    pub(crate) fn claim(&mut self, b: usize)
        ensures
            final(self)@ == old(self)@.claim(b),
            final(self).cuts == old(self).cuts,
    {
        self.claimed.insert(b);
    }

    pub(crate) fn claim_all(&mut self, s: &HashSet<usize>)
        ensures
            final(self)@ == old(self)@.with_claimed(old(self)@.claimed.union(s@)),
            final(self).cuts == old(self).cuts,
    {
        crate::sets::extend_set(&mut self.claimed, s);
    }

    pub(crate) fn set_claimed(&mut self, s: HashSet<usize>)
        ensures
            final(self)@ == old(self)@.with_claimed(s@),
            final(self).cuts == old(self).cuts,
    {
        self.claimed = s;
    }

    pub(crate) fn spend(&mut self)
        requires
            old(self).budget > 0,
        ensures
            final(self)@ == old(self)@.spent(),
            final(self).cuts == old(self).cuts,
    {
        self.budget = self.budget - 1;
    }

    pub(crate) fn add_tail(&mut self, b: usize)
        ensures
            final(self)@ == old(self)@.with_tail(b),
            final(self).cuts == old(self).cuts,
    {
        self.tails.insert(b);
    }

    pub(crate) fn cut(&mut self)
        ensures
            final(self)@ == old(self)@,
            final(self).cuts@ == old(self).cuts@ + 1,
    {
        self.cuts = Ghost(self.cuts@ + 1);
    }

    pub(crate) fn count_dom(&mut self)
        ensures
            final(self)@ == old(self)@.counted(),
            final(self).cuts == old(self).cuts,
    {
        self.doms = self.doms.wrapping_add(1);
    }
}

impl Work {
    pub(crate) fn push(&mut self, r: Region)
        ensures
            region::trees(final(self).parts@) == region::trees(old(self).parts@).push(r.view()),
            final(self).cur == old(self).cur,
            final(self).done == old(self).done,
            final(self).first == old(self).first,
            final(self).structured@ == old(self).structured@,
    {
        let ghost t = region::trees(self.parts@);
        let ghost v = r.view();
        self.parts.push(r);
        assert(region::trees(self.parts@) =~= t.push(v));
    }

    pub(crate) fn can_enter(&self, f: &WalkFrame, st: &WalkState, b: usize) -> (r: bool)
        ensures
            r == ws(*self, *st).can_enter(f@, b),
    {
        f.universe.contains(&b) && !f.stop.contains(&b) && !st.claimed.contains(&b)
    }
}

/// The groups of a list that are not in the set.
pub(crate) fn left_out(active: &Vec<usize>, structured: &HashSet<usize>) -> (r: Vec<usize>)
    ensures
        r@ == model::unstructured(active@, structured@),
        forall|i: int| 0 <= i < r@.len() ==> active@.contains(#[trigger] r@[i]),
{
    let ghost f = |g: usize| !structured@.contains(g);
    let mut r: Vec<usize> = Vec::new();
    let mut i: usize = 0;
    reveal(Seq::filter);
    assert(active@.take(0).filter(f) =~= Seq::<usize>::empty());
    while i < active.len()
        invariant
            i <= active@.len(),
            f == |g: usize| !structured@.contains(g),
            r@ == active@.take(i as int).filter(f),
            forall|k: int| 0 <= k < r@.len() ==> active@.contains(#[trigger] r@[k]),
        decreases active@.len() - i,
    {
        reveal(Seq::filter);
        assert(active@.take(i + 1).drop_last() =~= active@.take(i as int));
        assert(active@.take(i + 1).last() == active@[i as int]);
        if !structured.contains(&active[i]) {
            r.push(active[i]);
        }
        i += 1;
    }
    assert(active@.take(i as int) =~= active@);
    r
}

} // verus!
