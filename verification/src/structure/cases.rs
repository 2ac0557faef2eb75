//! The cases of a switch, grouped by target.

use std::collections::HashSet;

use vstd::prelude::*;

use crate::ir::{Expr, SwitchTargets, Term};
use crate::structure::env::Env;
use crate::structure::region::{pair, Region, Tree};
use crate::structure::structurer::Structurer;

verus! {

broadcast use vstd::std_specs::hash::group_hash_axioms;

/// Cases of one target: their values, the target, and whether it is the follow.
pub struct CaseGroup {
    pub vals: Vec<i64>,
    pub target: usize,
    pub is_follow: bool,
}

/// What a case group is.
pub struct CaseView {
    pub vals: Seq<i64>,
    pub target: usize,
    pub is_follow: bool,
}

impl View for CaseGroup {
    type V = CaseView;

    open spec fn view(&self) -> CaseView {
        CaseView { vals: self.vals@, target: self.target, is_follow: self.is_follow }
    }
}

pub open spec fn case_views(v: Seq<CaseGroup>) -> Seq<CaseView> {
    Seq::new(v.len(), |i: int| v[i]@)
}

/// The (value, code offset) pairs of a switch terminal.
pub open spec fn pairs_of(t: Term) -> Seq<(i64, u32)> {
    match t {
        Term::Switch { targets, .. } => match targets {
            SwitchTargets::Table { low, targets } => Seq::new(
                targets@.len(),
                |i: int| ((low + i) as i64, targets@[i]),
            ),
            SwitchTargets::Lookup { pairs } => Seq::new(pairs@.len(), |i: int| (pairs@[i].0 as i64, pairs@[i].1)),
        },
        _ => Seq::empty(),
    }
}

/// The values of a table can be counted; nothing is asked of other terminals.
pub open spec fn table_fits(t: Term) -> bool {
    match t {
        Term::Switch { targets, .. } => match targets {
            SwitchTargets::Table { low, targets } => low + targets@.len() <= i64::MAX,
            _ => true,
        },
        _ => true,
    }
}

/// The code offset of the default case.
pub open spec fn default_pc(t: Term) -> u32 {
    match t {
        Term::Switch { default, .. } => match default {
            Some(d) => d,
            None => 0,
        },
        _ => 0,
    }
}

/// The selector dispatches on patterns.
pub open spec fn is_pattern_selector(e: Expr) -> bool {
    e matches Expr::Invokedynamic { name, args } && name@ == "typeSwitch"@ && args@.len() > 0
}

/// The first group with the target, or the length.
pub open spec fn case_index(gs: Seq<CaseView>, target: usize) -> nat
    decreases gs.len(),
{
    if gs.len() == 0 {
        0
    } else {
        let i = case_index(gs.drop_last(), target);
        if i < gs.len() - 1 || gs.last().target == target {
            i
        } else {
            gs.len()
        }
    }
}

/// The groups with one more case.
pub open spec fn with_case(gs: Seq<CaseView>, v: i64, target: usize, is_follow: bool) -> Seq<CaseView> {
    let i = case_index(gs, target);
    if i < gs.len() {
        gs.update(i as int, CaseView { vals: gs[i as int].vals.push(v), ..gs[i as int] })
    } else {
        gs.push(CaseView { vals: seq![v], target, is_follow })
    }
}

impl Env {
    /// The block of the default case, unless it is the follow.
    pub open spec fn default_block(self, block: usize, follow: Option<usize>) -> Option<usize> {
        match self.cfg.at(default_pc(self.term(block))) {
            Some(d) => if Some(d) == follow {
                None
            } else {
                Some(d)
            },
            None => None,
        }
    }

    /// The groups of the first `k` cases, in order of first mention.
    pub open spec fn cases_upto(self, block: usize, follow: Option<usize>, k: nat) -> Seq<CaseView>
        decreases k,
    {
        if k == 0 {
            Seq::empty()
        } else {
            let gs = self.cases_upto(block, follow, (k - 1) as nat);
            let p = pairs_of(self.term(block))[k - 1];
            match self.cfg.at(p.1) {
                Some(tb) => if Some(tb) == self.default_block(block, follow) {
                    gs
                } else {
                    with_case(gs, p.0, tb, Some(tb) == follow)
                },
                None => gs,
            }
        }
    }

    /// `g` put into a list ordered by the target's start, behind equals.
    pub open spec fn case_placed(self, v: Seq<CaseView>, g: CaseView) -> Seq<CaseView>
        decreases v.len(),
    {
        if v.len() == 0 || self.start(v[v.len() - 1].target) <= self.start(g.target) {
            v.push(g)
        } else {
            self.case_placed(v.drop_last(), g).push(v[v.len() - 1])
        }
    }

    /// The first `k` groups ordered by the target's start.
    pub open spec fn cases_sorted(self, v: Seq<CaseView>, k: nat) -> Seq<CaseView>
        decreases k,
    {
        if k == 0 {
            Seq::empty()
        } else {
            self.case_placed(self.cases_sorted(v, (k - 1) as nat), v[k - 1])
        }
    }

    /// The case groups of the switch at `block`.
    pub open spec fn case_groups(self, block: usize, follow: Option<usize>) -> Seq<CaseView> {
        let gs = self.cases_upto(block, follow, pairs_of(self.term(block)).len());
        self.cases_sorted(gs, gs.len())
    }

    /// The heads of the arms: the targets that are not the follow.
    pub open spec fn arm_heads(self, block: usize, follow: Option<usize>) -> Set<usize> {
        Set::new(
            |b: usize|
                self.default_block(block, follow) == Some(b) || exists|i: int|
                    0 <= i < self.case_groups(block, follow).len() && !(#[trigger] self.case_groups(
                        block,
                        follow,
                    )[i]).is_follow && self.case_groups(block, follow)[i].target == b,
        )
    }

    /// Where the arms of the switch stop.
    pub open spec fn case_stop(self, block: usize, follow: Option<usize>, stop: Set<usize>) -> Set<usize> {
        let s = stop.union(self.arm_heads(block, follow));
        match follow {
            Some(f) => s.insert(f),
            None => s,
        }
    }

    /// An arm that falls out at its end jumps to the follow.
    pub open spec fn bound_arm(self, r: Tree, follow: Option<usize>) -> Tree {
        match follow {
            Some(f) => if self.binds(r, f) || r.terminates(self.results, Seq::empty()) || r.abrupt_switch_at_end(
                self.results,
            ) {
                r
            } else {
                Tree::Sequence(seq![r, Tree::Goto { target: f }])
            },
            None => r,
        }
    }
}

proof fn lemma_case_index(gs: Seq<CaseView>, target: usize)
    ensures
        case_index(gs, target) <= gs.len(),
        case_index(gs, target) < gs.len() ==> gs[case_index(gs, target) as int].target == target,
        forall|j: int| 0 <= j < case_index(gs, target) ==> (#[trigger] gs[j]).target != target,
    decreases gs.len(),
{
    if gs.len() > 0 {
        let init = gs.drop_last();
        lemma_case_index(init, target);
        let i = case_index(init, target);
        if i < gs.len() - 1 {
            assert(gs[i as int] == init[i as int]);
        }
        assert forall|j: int| 0 <= j < case_index(gs, target) implies (#[trigger] gs[j]).target != target by {
            if j < init.len() {
                assert(gs[j] == init[j]);
                if i >= gs.len() - 1 {
                    assert(init[j].target != target);
                }
            }
        }
    }
}

// -- what the groups say -----------------------------------------------------------

/// The terminal sends the value to the code offset: the offset stands in the
/// table as many places behind its start as the value lies above the lowest
/// one, or beside the value in the pairs.
pub open spec fn sends(t: Term, v: i64, pc: u32) -> bool {
    match t {
        Term::Switch { targets, .. } => match targets {
            SwitchTargets::Table { low, targets } => low <= v < low + targets@.len() && targets@[v - low] == pc,
            SwitchTargets::Lookup { pairs } => exists|i: int|
                0 <= i < pairs@.len() && (#[trigger] pairs@[i]).0 == v && pairs@[i].1 == pc,
        },
        _ => false,
    }
}

/// The pairs are what the terminal sends where. Those of a table come in
/// order of the values, those of a lookup as they are listed.
pub proof fn law_pairs(t: Term, v: i64, pc: u32)
    requires
        table_fits(t),
    ensures
        sends(t, v, pc) <==> pairs_of(t).contains((v, pc)),
        t matches Term::Switch { targets: SwitchTargets::Table { targets, .. }, .. } ==> pairs_of(t).len() == targets@.len()
            && forall|i: int| 0 < i < pairs_of(t).len() ==> pairs_of(t)[i - 1].0 < (#[trigger] pairs_of(t)[i]).0,
        t matches Term::Switch { targets: SwitchTargets::Lookup { pairs }, .. } ==> pairs_of(t).len() == pairs@.len()
            && forall|i: int| 0 <= i < pairs@.len() ==> pairs_of(t)[i].0 == (#[trigger] pairs@[i]).0 && pairs_of(t)[i].1 == pairs@[i].1,
{
    match t {
        Term::Switch { targets, .. } => match targets {
            SwitchTargets::Table { low, targets } => {
                if sends(t, v, pc) {
                    assert(pairs_of(t)[v - low] == (v, pc));
                }
            },
            SwitchTargets::Lookup { pairs } => {
                if sends(t, v, pc) {
                    let i = choose|i: int| 0 <= i < pairs@.len() && (#[trigger] pairs@[i]).0 == v && pairs@[i].1 == pc;
                    assert(pairs_of(t)[i] == (v, pc));
                }
                if pairs_of(t).contains((v, pc)) {
                    let i = choose|i: int| 0 <= i < pairs_of(t).len() && pairs_of(t)[i] == (v, pc);
                    assert(pairs@[i].0 == v);
                }
            },
        },
        _ => {},
    }
}

impl Env {
    /// The values of the pairs that lead to the block, in order.
    pub open spec fn values_to(self, ps: Seq<(i64, u32)>, b: usize) -> Seq<i64>
        decreases ps.len(),
    {
        if ps.len() == 0 {
            Seq::empty()
        } else if self.cfg.at(ps.last().1) == Some(b) {
            self.values_to(ps.drop_last(), b).push(ps.last().0)
        } else {
            self.values_to(ps.drop_last(), b)
        }
    }

    /// The groups stand for the pairs: every value is in the group of its
    /// block, each group has exactly the values of its block, and no two
    /// groups share one.
    pub open spec fn stands_for(self, gs: Seq<CaseView>, ps: Seq<(i64, u32)>, default: Option<usize>, follow: Option<usize>) -> bool {
        &&& forall|k: int|
            0 <= k < ps.len() && self.cfg.at((#[trigger] ps[k]).1) is Some && self.cfg.at(ps[k].1) != default ==> exists|i: int|
                0 <= i < gs.len() && Some((#[trigger] gs[i]).target) == self.cfg.at(ps[k].1) && gs[i].vals.contains(ps[k].0)
        &&& forall|i: int|
            0 <= i < gs.len() ==> (#[trigger] gs[i]).vals == self.values_to(ps, gs[i].target) && gs[i].vals.len() > 0
        &&& forall|i: int|
            0 <= i < gs.len() ==> Some((#[trigger] gs[i]).target) != default && gs[i].is_follow == (Some(gs[i].target) == follow)
        &&& forall|i: int, j: int| 0 <= i < j < gs.len() ==> (#[trigger] gs[i]).target != (#[trigger] gs[j]).target
    }

    /// The values of a switch are grouped by the block they lead to. Those
    /// that lead to the default block have no group. The groups come in order
    /// of where their blocks start.
    pub proof fn law_case_groups(self, block: usize, follow: Option<usize>)
        ensures
            self.stands_for(
                self.case_groups(block, follow),
                pairs_of(self.term(block)),
                self.default_block(block, follow),
                follow,
            ),
            forall|i: int, j: int|
                0 <= i < j < self.case_groups(block, follow).len() ==> self.start(
                    (#[trigger] self.case_groups(block, follow)[i]).target,
                ) <= self.start((#[trigger] self.case_groups(block, follow)[j]).target),
    {
        let ps = pairs_of(self.term(block));
        let gs = self.cases_upto(block, follow, ps.len());
        self.lemma_cases_upto(block, follow, ps.len());
        assert(ps.take(ps.len() as int) =~= ps);
        self.lemma_cases_sorted(gs, gs.len());
        let out = self.case_groups(block, follow);
        let default = self.default_block(block, follow);
        assert forall|i: int| 0 <= i < out.len() implies gs.contains(#[trigger] out[i]) by {
            assert(out.contains(out[i]));
            let j = choose|j: int| 0 <= j < gs.len() && gs[j] == out[i];
            assert(gs[j] == out[i]);
        }
        assert forall|k: int|
            0 <= k < ps.len() && self.cfg.at((#[trigger] ps[k]).1) is Some && self.cfg.at(ps[k].1) != default implies exists|i: int|
            0 <= i < out.len() && Some((#[trigger] out[i]).target) == self.cfg.at(ps[k].1) && out[i].vals.contains(ps[k].0) by {
            let i = choose|i: int|
                0 <= i < gs.len() && Some((#[trigger] gs[i]).target) == self.cfg.at(ps[k].1) && gs[i].vals.contains(ps[k].0);
            assert(out.contains(gs[i]));
            let j = choose|j: int| 0 <= j < out.len() && out[j] == gs[i];
            assert(Some(out[j].target) == self.cfg.at(ps[k].1));
        }
    }

    proof fn lemma_values_seen(self, ps: Seq<(i64, u32)>, b: usize)
        ensures
            self.values_to(ps, b).len() == 0 <==> forall|k: int| 0 <= k < ps.len() ==> self.cfg.at((#[trigger] ps[k]).1) != Some(b),
        decreases ps.len(),
    {
        if ps.len() > 0 {
            let d = ps.drop_last();
            self.lemma_values_seen(d, b);
            if self.cfg.at(ps.last().1) != Some(b) {
                assert forall|k: int|
                    0 <= k < ps.len() && (forall|j: int| 0 <= j < d.len() ==> self.cfg.at((#[trigger] d[j]).1) != Some(b)) implies self.cfg.at(
                    (#[trigger] ps[k]).1,
                ) != Some(b) by {
                    if k < d.len() {
                        assert(d[k] == ps[k]);
                    }
                }
                assert forall|k: int|
                    0 <= k < d.len() && (forall|j: int| 0 <= j < ps.len() ==> self.cfg.at((#[trigger] ps[j]).1) != Some(b)) implies self.cfg.at(
                    (#[trigger] d[k]).1,
                ) != Some(b) by {
                    assert(d[k] == ps[k]);
                }
            } else {
                assert(self.cfg.at(ps[ps.len() - 1].1) == Some(b));
            }
        }
    }

    proof fn lemma_cases_upto(self, block: usize, follow: Option<usize>, k: nat)
        requires
            k <= pairs_of(self.term(block)).len(),
        ensures
            self.stands_for(
                self.cases_upto(block, follow, k),
                pairs_of(self.term(block)).take(k as int),
                self.default_block(block, follow),
                follow,
            ),
        decreases k,
    {
        let all = pairs_of(self.term(block));
        let ps = all.take(k as int);
        let default = self.default_block(block, follow);
        if k > 0 {
            let j = (k - 1) as nat;
            self.lemma_cases_upto(block, follow, j);
            let before = all.take(j as int);
            let gs = self.cases_upto(block, follow, j);
            let out = self.cases_upto(block, follow, k);
            let p = all[k - 1];
            assert(ps.drop_last() =~= before);
            assert(ps.last() == p);
            let to = self.cfg.at(p.1);
            if to is None || to == default {
                assert forall|i: int| 0 <= i < gs.len() implies (#[trigger] gs[i]).vals == self.values_to(ps, gs[i].target) by {}
                self.lemma_carried(gs, out, before, ps, default);
            } else {
                let tb = to->0;
                let i = case_index(gs, tb);
                lemma_case_index(gs, tb);
                if i < gs.len() {
                    assert(out[i as int].vals == gs[i as int].vals.push(p.0));
                    assert(out[i as int].vals[gs[i as int].vals.len() as int] == p.0);
                    assert forall|m: int| 0 <= m < out.len() implies (#[trigger] out[m]).vals == self.values_to(ps, out[m].target) by {
                        if m != i {
                            assert(out[m] == gs[m]);
                            assert(gs[i as int].target == tb);
                            assert(out[m].target != tb);
                        }
                    }
                } else {
                    self.lemma_values_seen(before, tb);
                    assert forall|m: int| 0 <= m < before.len() implies self.cfg.at((#[trigger] before[m]).1) != Some(tb) by {
                        if self.cfg.at(before[m].1) == Some(tb) {
                            let x = choose|x: int|
                                0 <= x < gs.len() && Some((#[trigger] gs[x]).target) == self.cfg.at(before[m].1)
                                    && gs[x].vals.contains(before[m].0);
                            assert(gs[x].target != tb);
                        }
                    }
                    assert(self.values_to(before, tb) =~= Seq::empty());
                    assert(out[gs.len() as int].vals =~= self.values_to(ps, tb));
                    assert(out[gs.len() as int].vals[0] == p.0);
                }
                assert forall|m: int| 0 <= m < gs.len() implies (#[trigger] out[m]).target == gs[m].target && (forall|v: i64|
                    #[trigger] gs[m].vals.contains(v) ==> out[m].vals.contains(v)) by {
                    assert forall|v: i64| #[trigger] gs[m].vals.contains(v) implies out[m].vals.contains(v) by {
                        let x = choose|x: int| 0 <= x < gs[m].vals.len() && gs[m].vals[x] == v;
                        assert(out[m].vals[x] == v);
                    }
                }
                self.lemma_carried(gs, out, before, ps, default);
            }
        }
    }

    proof fn lemma_carried(self, gs: Seq<CaseView>, out: Seq<CaseView>, before: Seq<(i64, u32)>, ps: Seq<(i64, u32)>, default: Option<usize>)
        requires
            ps.len() > 0,
            ps.drop_last() == before,
            gs.len() <= out.len(),
            forall|i: int|
                0 <= i < gs.len() ==> (#[trigger] out[i]).target == gs[i].target && (forall|v: i64|
                    #[trigger] gs[i].vals.contains(v) ==> out[i].vals.contains(v)),
            forall|k: int|
                0 <= k < before.len() && self.cfg.at((#[trigger] before[k]).1) is Some && self.cfg.at(before[k].1) != default
                    ==> exists|i: int|
                    0 <= i < gs.len() && Some((#[trigger] gs[i]).target) == self.cfg.at(before[k].1) && gs[i].vals.contains(
                        before[k].0,
                    ),
            self.cfg.at(ps.last().1) is Some && self.cfg.at(ps.last().1) != default ==> exists|i: int|
                0 <= i < out.len() && Some((#[trigger] out[i]).target) == self.cfg.at(ps.last().1) && out[i].vals.contains(
                    ps.last().0,
                ),
        ensures
            forall|k: int|
                0 <= k < ps.len() && self.cfg.at((#[trigger] ps[k]).1) is Some && self.cfg.at(ps[k].1) != default ==> exists|i: int|
                    0 <= i < out.len() && Some((#[trigger] out[i]).target) == self.cfg.at(ps[k].1) && out[i].vals.contains(ps[k].0),
    {
        assert forall|k: int|
            0 <= k < ps.len() && self.cfg.at((#[trigger] ps[k]).1) is Some && self.cfg.at(ps[k].1) != default implies exists|i: int|
            0 <= i < out.len() && Some((#[trigger] out[i]).target) == self.cfg.at(ps[k].1) && out[i].vals.contains(ps[k].0) by {
            if k < before.len() {
                assert(before[k] == ps[k]);
                let i = choose|i: int|
                    0 <= i < gs.len() && Some((#[trigger] gs[i]).target) == self.cfg.at(before[k].1) && gs[i].vals.contains(
                        before[k].0,
                    );
                assert(out[i].target == gs[i].target);
                assert(out[i].vals.contains(ps[k].0));
            }
        }
    }

    proof fn lemma_case_placed(self, v: Seq<CaseView>, g: CaseView)
        requires
            forall|i: int| 0 <= i < v.len() ==> (#[trigger] v[i]).target != g.target,
            forall|i: int, j: int| 0 <= i < j < v.len() ==> (#[trigger] v[i]).target != (#[trigger] v[j]).target,
            forall|i: int, j: int|
                0 <= i < j < v.len() ==> self.start((#[trigger] v[i]).target) <= self.start((#[trigger] v[j]).target),
        ensures
            ({
                let u = self.case_placed(v, g);
                &&& u.len() == v.len() + 1
                &&& forall|x: CaseView| #[trigger] u.contains(x) <==> v.contains(x) || x == g
                &&& forall|i: int, j: int| 0 <= i < j < u.len() ==> (#[trigger] u[i]).target != (#[trigger] u[j]).target
                &&& forall|i: int, j: int|
                    0 <= i < j < u.len() ==> self.start((#[trigger] u[i]).target) <= self.start((#[trigger] u[j]).target)
            }),
        decreases v.len(),
    {
        let u = self.case_placed(v, g);
        if v.len() == 0 || self.start(v[v.len() - 1].target) <= self.start(g.target) {
            assert forall|x: CaseView| #[trigger] u.contains(x) <==> v.contains(x) || x == g by {
                if v.contains(x) {
                    let i = choose|i: int| 0 <= i < v.len() && v[i] == x;
                    assert(u[i] == x);
                }
                assert(u[v.len() as int] == g);
            }
        } else {
            let d = v.drop_last();
            let z = v[v.len() - 1];
            self.lemma_case_placed(d, g);
            let p = self.case_placed(d, g);
            assert forall|x: CaseView| #[trigger] u.contains(x) <==> v.contains(x) || x == g by {
                if v.contains(x) {
                    let i = choose|i: int| 0 <= i < v.len() && v[i] == x;
                    if i < d.len() {
                        assert(d[i] == x);
                        assert(p.contains(x));
                    }
                }
                if p.contains(x) {
                    let i = choose|i: int| 0 <= i < p.len() && p[i] == x;
                    assert(u[i] == x);
                    if d.contains(x) {
                        let j = choose|j: int| 0 <= j < d.len() && d[j] == x;
                        assert(v[j] == x);
                    }
                }
                assert(u[p.len() as int] == z);
                assert(p.contains(g));
                if u.contains(x) {
                    let i = choose|i: int| 0 <= i < u.len() && u[i] == x;
                    if i < p.len() {
                        assert(p[i] == x);
                    }
                }
            }
            assert forall|i: int| 0 <= i < p.len() implies self.start((#[trigger] p[i]).target) <= self.start(z.target)
                && p[i].target != z.target by {
                assert(p.contains(p[i]));
                if d.contains(p[i]) {
                    let j = choose|j: int| 0 <= j < d.len() && d[j] == p[i];
                    assert(v[j] == p[i]);
                }
            }
        }
    }

    proof fn lemma_cases_sorted(self, v: Seq<CaseView>, k: nat)
        requires
            k <= v.len(),
            forall|i: int, j: int| 0 <= i < j < v.len() ==> (#[trigger] v[i]).target != (#[trigger] v[j]).target,
        ensures
            ({
                let u = self.cases_sorted(v, k);
                &&& u.len() == k
                &&& forall|x: CaseView| #[trigger] u.contains(x) <==> v.take(k as int).contains(x)
                &&& forall|i: int, j: int| 0 <= i < j < u.len() ==> (#[trigger] u[i]).target != (#[trigger] u[j]).target
                &&& forall|i: int, j: int|
                    0 <= i < j < u.len() ==> self.start((#[trigger] u[i]).target) <= self.start((#[trigger] u[j]).target)
            }),
            k == v.len() ==> forall|x: CaseView| #[trigger] self.cases_sorted(v, k).contains(x) <==> v.contains(x),
        decreases k,
    {
        let t = v.take(k as int);
        if k > 0 {
            let j = (k - 1) as nat;
            self.lemma_cases_sorted(v, j);
            let u = self.cases_sorted(v, j);
            let b = v.take(j as int);
            assert forall|i: int| 0 <= i < u.len() implies (#[trigger] u[i]).target != v[k - 1].target by {
                assert(u.contains(u[i]));
                let m = choose|m: int| 0 <= m < b.len() && b[m] == u[i];
                assert(v[m] == u[i]);
            }
            self.lemma_case_placed(u, v[k - 1]);
            let w = self.cases_sorted(v, k);
            assert forall|x: CaseView| #[trigger] w.contains(x) <==> t.contains(x) by {
                assert(w.contains(x) <==> b.contains(x) || x == v[k - 1]);
                if b.contains(x) {
                    let m = choose|m: int| 0 <= m < b.len() && b[m] == x;
                    assert(t[m] == x);
                }
                assert(t[k - 1] == v[k - 1]);
                if t.contains(x) {
                    let m = choose|m: int| 0 <= m < t.len() && t[m] == x;
                    if m < j {
                        assert(b[m] == x);
                    }
                }
            }
        }
        if k == v.len() {
            assert(t =~= v);
        }
    }

    /// The default block starts at the terminal's default offset and is not
    /// the follow; where a block starts there that is not the follow, there is
    /// a default block.
    pub proof fn law_default_block(self, block: usize, follow: Option<usize>, d: usize)
        requires
            self.term(block) matches Term::Switch { default, .. } && default is Some,
        ensures
            self.default_block(block, follow) == Some(d) <==> Some(d) != follow && self.cfg.at(
                (self.term(block)->Switch_default)->0,
            ) == Some(d),
    {
    }
}

/// The first group with the target, or the length.
fn find_case(gs: &Vec<CaseGroup>, target: usize) -> (r: usize)
    ensures
        r == case_index(case_views(gs@), target),
{
    let ghost vs = case_views(gs@);
    proof {
        lemma_case_index(vs, target);
    }
    let ghost want = case_index(vs, target);
    let mut i: usize = 0;
    while i < gs.len()
        invariant
            i <= gs@.len(),
            vs == case_views(gs@),
            want == case_index(vs, target),
            want <= vs.len(),
            i <= want,
            want < vs.len() ==> vs[want as int].target == target,
            forall|j: int| 0 <= j < want ==> (#[trigger] vs[j]).target != target,
        decreases gs@.len() - i,
    {
        assert(vs[i as int] == gs@[i as int]@);
        if gs[i].target == target {
            return i;
        }
        i += 1;
    }
    i
}

pub(crate) fn has_pattern_selector(e: &Expr) -> (r: bool)
    ensures
        r == is_pattern_selector(*e),
{
    match e {
        Expr::Invokedynamic { name, args } => crate::text::is_text(name, "typeSwitch") && args.len() > 0,
        _ => false,
    }
}

impl<'a> Structurer<'a> {
    fn pair_list(&self, block: usize) -> (r: Vec<(i64, u32)>)
        requires
            self.wf(),
            block < self.env().n(),
        ensures
            r@ == pairs_of(self.env().term(block)),
    {
        let ghost want = pairs_of(self.env().term(block));
        let mut r: Vec<(i64, u32)> = Vec::new();
        match &self.results[block].term {
            Term::Switch { targets, .. } => match targets {
                SwitchTargets::Table { low, targets } => {
                    assert(table_fits(self.env().results[block as int].term));
                    let mut i: usize = 0;
                    let mut v: i64 = *low as i64;
                    while i < targets.len()
                        invariant
                            i <= targets@.len(),
                            *low + targets@.len() <= i64::MAX,
                            v == *low + i,
                            r@.len() == i,
                            forall|j: int| 0 <= j < i ==> #[trigger] r@[j] == ((*low + j) as i64, targets@[j]),
                        decreases targets@.len() - i,
                    {
                        r.push((v, targets[i]));
                        v += 1;
                        i += 1;
                    }
                    assert(r@ =~= want);
                },
                SwitchTargets::Lookup { pairs } => {
                    let mut i: usize = 0;
                    while i < pairs.len()
                        invariant
                            i <= pairs@.len(),
                            r@.len() == i,
                            forall|j: int| 0 <= j < i ==> #[trigger] r@[j] == (pairs@[j].0 as i64, pairs@[j].1),
                        decreases pairs@.len() - i,
                    {
                        r.push((pairs[i].0 as i64, pairs[i].1));
                        i += 1;
                    }
                    assert(r@ =~= want);
                },
            },
            _ => {},
        }
        assert(r@ =~= want);
        r
    }

    pub(crate) fn default_of(&self, block: usize, follow: Option<usize>) -> (r: Option<usize>)
        requires
            self.wf(),
            block < self.env().n(),
        ensures
            r == self.env().default_block(block, follow),
            r matches Some(d) ==> d < self.env().n(),
    {
        let pc: u32 = match &self.results[block].term {
            Term::Switch { default, .. } => match default {
                Some(d) => *d,
                None => 0,
            },
            _ => 0,
        };
        match self.cfg.block_at(pc) {
            Some(d) => if Some(d) == follow {
                None
            } else {
                Some(d)
            },
            None => None,
        }
    }

    fn case_place(&self, v: Vec<CaseGroup>, g: CaseGroup) -> (r: Vec<CaseGroup>)
        requires
            self.wf(),
            g.target < self.env().n(),
            forall|i: int| 0 <= i < v@.len() ==> (#[trigger] v@[i]).target < self.env().n(),
        ensures
            case_views(r@) == self.env().case_placed(case_views(v@), g@),
            forall|i: int| 0 <= i < r@.len() ==> (#[trigger] r@[i]).target < self.env().n(),
        decreases v@.len(),
    {
        let mut v = v;
        let ghost v0 = case_views(v@);
        if v.len() == 0 || self.cfg.blocks[v[v.len() - 1].target].start <= self.cfg.blocks[g.target].start {
            let ghost gv = g@;
            v.push(g);
            assert(case_views(v@) =~= v0.push(gv));
            return v;
        }
        let last = v.pop().unwrap();
        let ghost lv = last@;
        assert(case_views(v@) =~= v0.drop_last());
        assert(v0[v0.len() - 1] == lv);
        let mut r = self.case_place(v, g);
        let ghost r0 = case_views(r@);
        r.push(last);
        assert(case_views(r@) =~= r0.push(lv));
        r
    }

    /// The case groups of the switch at `block`, ordered by the target's start.
    #[verifier::loop_isolation(false)]
    pub(crate) fn group_cases(&self, block: usize, follow: Option<usize>) -> (r: Vec<CaseGroup>)
        requires
            self.wf(),
            block < self.env().n(),
        ensures
            case_views(r@) == self.env().case_groups(block, follow),
            forall|i: int| 0 <= i < r@.len() ==> (#[trigger] r@[i]).target < self.env().n(),
    {
        let ghost e = self.env();
        let pairs = self.pair_list(block);
        let default = self.default_of(block, follow);
        let mut gs: Vec<CaseGroup> = Vec::new();
        let mut k: usize = 0;
        assert(case_views(gs@) =~= Seq::empty());
        while k < pairs.len()
            invariant
                k <= pairs@.len(),
                case_views(gs@) == e.cases_upto(block, follow, k as nat),
                forall|i: int| 0 <= i < gs@.len() ==> (#[trigger] gs@[i]).target < e.n(),
            decreases pairs@.len() - k,
        {
            let v = pairs[k].0;
            if let Some(tb) = self.cfg.block_at(pairs[k].1) {
                if Some(tb) != default {
                    let i = find_case(&gs, tb);
                    let ghost before = case_views(gs@);
                    proof {
                        lemma_case_index(before, tb);
                    }
                    if i < gs.len() {
                        let mut g = gs.remove(i);
                        assert(g@ == before[i as int]);
                        g.vals.push(v);
                        let ghost gv = g@;
                        gs.insert(i, g);
                        assert(case_views(gs@) =~= before.update(i as int, gv));
                    } else {
                        let mut vals: Vec<i64> = Vec::new();
                        vals.push(v);
                        let g = CaseGroup { vals, target: tb, is_follow: Some(tb) == follow };
                        assert(g.vals@ =~= seq![v]);
                        let ghost gv = g@;
                        gs.push(g);
                        assert(case_views(gs@) =~= before.push(gv));
                    }
                }
            }
            k += 1;
        }
        let ghost all = case_views(gs@);
        let mut r: Vec<CaseGroup> = Vec::new();
        let total = gs.len();
        let mut rest: Vec<CaseGroup> = Vec::new();
        while gs.len() > 0
            invariant
                gs@.len() + rest@.len() == total,
                case_views(gs@) =~= all.take(gs@.len() as int),
                forall|i: int| 0 <= i < gs@.len() ==> (#[trigger] gs@[i]).target < e.n(),
                forall|i: int|
                    0 <= i < rest@.len() ==> (#[trigger] rest@[i])@ == all[total - 1 - i] && rest@[i].target < e.n(),
            decreases gs@.len(),
        {
            let ghost g0 = gs@;
            let g = gs.pop().unwrap();
            assert(case_views(g0)[g0.len() - 1] == g@);
            assert(case_views(gs@) =~= all.take(gs@.len() as int)) by {
                assert forall|i: int| 0 <= i < gs@.len() implies case_views(gs@)[i] == all[i] by {
                    assert(case_views(g0)[i] == all.take(g0.len() as int)[i]);
                }
            }
            assert(g@ == all[g0.len() - 1]);
            rest.push(g);
        }
        k = 0;
        assert(case_views(r@) =~= Seq::empty());
        while rest.len() > 0
            invariant
                k + rest@.len() == total,
                case_views(r@) == e.cases_sorted(all, k as nat),
                forall|i: int| 0 <= i < r@.len() ==> (#[trigger] r@[i]).target < e.n(),
                forall|i: int|
                    0 <= i < rest@.len() ==> (#[trigger] rest@[i])@ == all[total - 1 - i] && rest@[i].target < e.n(),
            decreases rest@.len(),
        {
            let ghost t0 = rest@;
            let g = rest.pop().unwrap();
            assert(g == t0[t0.len() - 1]);
            assert(g@ == all[k as int]);
            r = self.case_place(r, g);
            k += 1;
        }
        r
    }

    /// The heads of the arms.
    #[verifier::loop_isolation(false)]
    pub(crate) fn heads_of_arms(&self, block: usize, follow: Option<usize>, gs: &Vec<CaseGroup>) -> (r: HashSet<usize>)
        requires
            self.wf(),
            block < self.env().n(),
            case_views(gs@) == self.env().case_groups(block, follow),
        ensures
            r@ == self.env().arm_heads(block, follow),
    {
        let ghost e = self.env();
        let ghost vs = e.case_groups(block, follow);
        let mut r: HashSet<usize> = HashSet::new();
        let default = self.default_of(block, follow);
        if let Some(d) = default {
            r.insert(d);
        }
        let mut k: usize = 0;
        while k < gs.len()
            invariant
                k <= gs@.len(),
                forall|b: usize|
                    #[trigger] r@.contains(b) <==> default == Some(b) || exists|i: int|
                        0 <= i < k && !(#[trigger] vs[i]).is_follow && vs[i].target == b,
            decreases gs@.len() - k,
        {
            let ghost r0 = r@;
            assert(vs[k as int] == gs@[k as int]@);
            if !gs[k].is_follow {
                r.insert(gs[k].target);
            }
            assert forall|b: usize|
                #[trigger] r@.contains(b) <==> default == Some(b) || exists|i: int|
                    0 <= i < k + 1 && !(#[trigger] vs[i]).is_follow && vs[i].target == b by {
                if r0.contains(b) && default != Some(b) {
                    let i = choose|i: int| 0 <= i < k && !(#[trigger] vs[i]).is_follow && vs[i].target == b;
                    assert(!vs[i].is_follow && vs[i].target == b);
                }
                assert(r0.contains(b) ==> r@.contains(b));
                assert(r@.contains(b) && !r0.contains(b) ==> vs[k as int].target == b && !vs[k as int].is_follow);
            }
            k += 1;
        }
        assert(r@ =~= e.arm_heads(block, follow));
        r
    }

    /// An arm that falls out at its end jumps to the follow.
    pub(crate) fn bind_arm(&self, r: Region, follow: Option<usize>) -> (s: Region)
        ensures
            s.view() == self.env().bound_arm(r.view(), follow),
    {
        match follow {
            Some(f) => {
                let none: Vec<usize> = Vec::new();
                assert(none@ =~= Seq::empty());
                if self.arm_binds_to(&r, f) || r.terminates(self.results, &none) || r.abrupt_switch_at_end(self.results) {
                    r
                } else {
                    pair(r, Region::Goto { target: f })
                }
            },
            None => r,
        }
    }
}

} // verus!
