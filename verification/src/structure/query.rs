//! The questions the walk asks of a method, answered.

use std::collections::{HashMap, HashSet};

use vstd::prelude::*;

use crate::ir::{ConstVal, Expr, Stmt, Term};
use crate::sets::list_has;
use crate::structure::dominators::DomInfo;
use crate::structure::env;
use crate::structure::graph;
use crate::structure::merge_point::{confluence, immediate_postdom};
use crate::structure::reach;
use crate::structure::reach::{can_reach_cfg, can_reach_cfg_barred};
use crate::structure::region;
use crate::structure::region::is_abrupt_block;
use crate::structure::structurer::Structurer;

verus! {

broadcast use vstd::std_specs::hash::group_hash_axioms;

#[verifier::loop_isolation(false)]
fn is_assigns_final(s: &Stmt, finals: &Vec<String>) -> (r: bool)
    ensures
        r == env::assigns_final(*s, region::names(finals@)),
{
    match s {
        Stmt::ExprStmt(Expr::Assign { target, .. }) => match &**target {
            Expr::Field { name, .. } => {
                let mut i: usize = 0;
                let ghost ns = region::names(finals@);
                while i < finals.len()
                    invariant
                        i <= finals@.len(),
                        ns == region::names(finals@),
                        forall|j: int| 0 <= j < i ==> #[trigger] ns[j] != name@,
                    decreases finals@.len() - i,
                {
                    if finals[i] == *name {
                        assert(ns[i as int] == name@);
                        return true;
                    }
                    i += 1;
                }
                false
            },
            _ => false,
        },
        _ => false,
    }
}

fn is_null(e: &Expr) -> (r: bool)
    ensures
        r == (*e matches Expr::Const(c) && c is Null),
{
    match e {
        Expr::Const(ConstVal::Null) => true,
        _ => false,
    }
}

fn is_stores_caught(s: &Stmt, var: u32) -> (r: bool)
    ensures
        r == env::stores_caught(*s, var),
{
    match s {
        Stmt::LocalDef { var: v, init, .. } => match init {
            Some(e) => *v == var && is_null(e),
            None => false,
        },
        Stmt::ExprStmt(Expr::Assign { target, value, .. }) => match &**target {
            Expr::Local { var: v, .. } => *v == var && is_null(&**value),
            _ => false,
        },
        _ => false,
    }
}

pub(crate) fn is_sets_local(s: &Stmt) -> (r: bool)
    ensures
        r == env::sets_local(*s),
{
    match s {
        Stmt::LocalDef { init, .. } => init.is_some(),
        Stmt::ExprStmt(Expr::Assign { target, .. }) => match &**target {
            Expr::Local { .. } => true,
            _ => false,
        },
        _ => false,
    }
}

pub(crate) fn is_monitor_stmt(s: &Stmt) -> (r: bool)
    ensures
        r == env::is_monitor(*s),
{
    match s {
        Stmt::MonitorEnter(_) => true,
        Stmt::MonitorExit(_) => true,
        _ => false,
    }
}

impl<'a> Structurer<'a> {
    pub(crate) fn n(&self) -> (r: usize)
        ensures
            r == self.env().n(),
    {
        self.cfg.blocks.len()
    }

    pub(crate) fn succ_of(&self, b: usize) -> (r: &Vec<usize>)
        requires
            self.wf(),
            b < self.env().n(),
        ensures
            r@ == self.env().succ(b),
            forall|i: int| 0 <= i < r@.len() ==> #[trigger] r@[i] < self.env().n(),
    {
        &self.cfg.blocks[b].succ
    }

    pub(crate) fn pred_of(&self, b: usize) -> (r: &Vec<usize>)
        requires
            self.wf(),
            b < self.env().n(),
        ensures
            r@ == self.env().pred(b),
            forall|i: int| 0 <= i < r@.len() ==> #[trigger] r@[i] < self.env().n(),
    {
        &self.cfg.blocks[b].pred
    }

    pub(crate) fn is_quiet(&self, b: usize) -> (r: bool)
        requires
            self.wf(),
            b < self.env().n(),
        ensures
            r == self.env().quiet(b),
    {
        self.results[b].stmts.len() == 0
    }

    pub(crate) fn ends_abrupt(&self, b: usize) -> (r: bool)
        requires
            self.wf(),
            b < self.env().n(),
        ensures
            r == self.env().term(b).abrupt(),
    {
        self.results[b].term.is_abrupt()
    }

    pub(crate) fn ends_plain(&self, b: usize) -> (r: bool)
        requires
            self.wf(),
            b < self.env().n(),
        ensures
            r == self.env().term(b).plain(),
    {
        self.results[b].term.is_plain()
    }

    pub(crate) fn ends_cond(&self, b: usize) -> (r: bool)
        requires
            self.wf(),
            b < self.env().n(),
        ensures
            r == (self.env().term(b) is Cond),
    {
        match self.results[b].term {
            Term::Cond { .. } => true,
            _ => false,
        }
    }

    pub(crate) fn ends_return(&self, b: usize) -> (r: bool)
        requires
            self.wf(),
            b < self.env().n(),
        ensures
            r == (self.env().term(b) is Return),
    {
        match self.results[b].term {
            Term::Return(_) => true,
            _ => false,
        }
    }

    pub(crate) fn ends_switch(&self, b: usize) -> (r: bool)
        requires
            self.wf(),
            b < self.env().n(),
        ensures
            r == (self.env().term(b) is Switch),
    {
        match self.results[b].term {
            Term::Switch { .. } => true,
            _ => false,
        }
    }

    pub(crate) fn is_handler_block(&self, b: usize) -> (r: bool)
        ensures
            r == self.env().is_handler(b),
    {
        self.handler_group.contains_key(&b)
    }

    /// The innermost group owning a body block.
    pub(crate) fn body_of(&self, b: usize) -> (r: Option<usize>)
        ensures
            r == (if self.env().body.dom().contains(b) {
                Some(self.env().body[b])
            } else {
                None
            }),
    {
        match self.body_group.get(&b) {
            Some(g) => Some(*g),
            None => None,
        }
    }

    pub(crate) fn is_in_body(&self, b: usize, gi: usize) -> (r: bool)
        ensures
            r == self.env().in_body(b, gi),
    {
        match self.body_group.get(&b) {
            Some(g) => *g == gi,
            None => false,
        }
    }

    pub(crate) fn does_handle(&self, b: usize, gi: usize) -> (r: bool)
        ensures
            r == self.env().handles(b, gi),
    {
        match self.handler_group.get(&b) {
            Some(g) => *g == gi,
            None => false,
        }
    }

    pub(crate) fn is_terminator_block(&self, b: usize) -> (r: bool)
        ensures
            r == self.env().is_terminator(b),
    {
        is_abrupt_block(self.results, b)
    }

    pub(crate) fn hop_of(&self, b: usize) -> (r: Option<usize>)
        requires
            self.wf(),
            b < self.env().n(),
        ensures
            r == self.env().hop(b),
            r matches Some(c) ==> c < self.env().n(),
    {
        if self.ends_plain(b) && self.succ_of(b).len() == 1 {
            Some(self.succ_of(b)[0])
        } else {
            None
        }
    }

    /// The group with index `gi` spans the block.
    pub(crate) fn spans(&self, gi: usize, b: usize) -> (r: bool)
        requires
            self.wf(),
            b < self.env().n(),
            gi < self.groups@.len(),
        ensures
            r == self.env().in_span(b, self.env().groups[gi as int]),
    {
        let g = &self.groups[gi];
        let blk = &self.cfg.blocks[b];
        assert(self.env().groups[gi as int] == g@);
        blk.start >= g.start && (blk.end <= g.end || blk.end as u64 <= g.start as u64 + 1)
    }

    pub(crate) fn does_group_start(&self, pc: u32) -> (r: bool)
        ensures
            r == self.env().group_starts(pc),
    {
        let mut i: usize = 0;
        while i < self.groups.len()
            invariant
                i <= self.groups@.len(),
                forall|j: int| 0 <= j < i ==> (#[trigger] self.env().groups[j]).start != pc,
            decreases self.groups@.len() - i,
        {
            assert(self.env().groups[i as int] == self.groups@[i as int]@);
            if self.groups[i].start == pc {
                return true;
            }
            i += 1;
        }
        false
    }

    pub(crate) fn does_throw_out(&self, b: usize) -> (r: bool)
        ensures
            r == self.env().throws_out(b),
    {
        let mut i: usize = 0;
        while i < self.cfg.exc_edges.len()
            invariant
                i <= self.cfg.exc_edges@.len(),
                forall|j: int| 0 <= j < i ==> (#[trigger] self.cfg.exc_edges@[j]).from != b,
            decreases self.cfg.exc_edges@.len() - i,
        {
            if self.cfg.exc_edges[i].from == b {
                assert(self.env().cfg.exc_edges@[i as int].from == b);
                return true;
            }
            i += 1;
        }
        false
    }

    pub(crate) fn has_exc_edge(&self, a: usize, b: usize) -> (r: bool)
        ensures
            r == self.env().exc_edge(a, b),
    {
        let mut i: usize = 0;
        while i < self.cfg.exc_edges.len()
            invariant
                i <= self.cfg.exc_edges@.len(),
                forall|j: int|
                    0 <= j < i ==> !((#[trigger] self.cfg.exc_edges@[j]).from == a && self.cfg.exc_edges@[j].to == b),
            decreases self.cfg.exc_edges@.len() - i,
        {
            if self.cfg.exc_edges[i].from == a && self.cfg.exc_edges[i].to == b {
                assert(self.env().cfg.exc_edges@[i as int].from == a);
                return true;
            }
            i += 1;
        }
        false
    }

    pub(crate) fn exc_succ(&self) -> (r: HashMap<usize, Vec<usize>>)
        requires
            self.wf(),
        ensures
            reach::lists_of(r@) == self.env().exc(),
            reach::exc_ok(self.env().n(), self.env().exc()),
    {
        let mut r: HashMap<usize, Vec<usize>> = HashMap::new();
        let mut i: usize = 0;
        assert(reach::lists_of(r@) =~= self.env().exc_upto(0));
        while i < self.cfg.exc_edges.len()
            invariant
                self.wf(),
                i <= self.cfg.exc_edges@.len(),
                reach::lists_of(r@) == self.env().exc_upto(i as nat),
                reach::exc_ok(self.env().n(), self.env().exc_upto(i as nat)),
            decreases self.cfg.exc_edges@.len() - i,
        {
            let e = &self.cfg.exc_edges[i];
            let ghost m = reach::lists_of(r@);
            let mut list = match r.remove(&e.from) {
                Some(v) => v,
                None => Vec::new(),
            };
            let ghost before = list@;
            list.push(e.to);
            let ghost after = list@;
            r.insert(e.from, list);
            proof {
                assert(m.dom().contains(e.from) ==> before == m[e.from]);
                assert(!m.dom().contains(e.from) ==> after =~= seq![e.to]);
                assert(reach::lists_of(r@) =~= m.insert(e.from, after));
                let m2 = self.env().exc_upto((i + 1) as nat);
                assert(m2 == m.insert(e.from, after));
                assert forall|b: usize, k: int|
                    m2.dom().contains(b) && 0 <= k < m2[b].len() implies #[trigger] m2[b][k] < self.env().n() by {
                    if b != e.from {
                        assert(m[b][k] < self.env().n());
                    } else if k < before.len() {
                        assert(m[b][k] < self.env().n());
                    }
                }
            }
            i += 1;
        }
        r
    }

    pub(crate) fn does_reach(&self, from: usize, to: usize, budget: usize) -> (r: bool)
        requires
            self.wf(),
            from < self.env().n(),
        ensures
            r == self.env().reaches(from, to, budget as nat),
    {
        can_reach_cfg(self.cfg, from, to, budget)
    }

    pub(crate) fn does_reach_exc(&self, from: usize, to: usize, bar: &HashSet<usize>) -> (r: bool)
        requires
            self.wf(),
            from < self.env().n(),
        ensures
            r == self.env().reaches_exc(from, to, bar@),
    {
        let exc = self.exc_succ();
        can_reach_cfg_barred(self.cfg, &exc, from, to, bar, 8192)
    }

    // -- chains ---------------------------------------------------------------

    fn does_stub_walk(&self, x: usize, to: usize, seen: &mut HashSet<usize>, fuel: usize) -> (r: bool)
        requires
            self.wf(),
            x < self.env().n(),
        ensures
            (r, final(seen)@) == self.env().stub_walk(x, to, old(seen)@, fuel as nat),
        decreases fuel,
    {
        if fuel == 0 {
            return false;
        }
        if x == to {
            return true;
        }
        if seen.contains(&x) {
            return false;
        }
        seen.insert(x);
        if !self.is_quiet(x) {
            return false;
        }
        match self.hop_of(x) {
            Some(y) => self.does_stub_walk(y, to, seen, fuel - 1),
            None => false,
        }
    }

    /// Statement-free plain blocks lead from `from` to `to`.
    pub(crate) fn is_stub_chain(&self, from: usize, to: usize) -> (r: bool)
        requires
            self.wf(),
            from < self.env().n(),
        ensures
            r == self.env().stub_chain(from, to),
    {
        let mut seen: HashSet<usize> = HashSet::new();
        assert(seen@ =~= Set::empty());
        self.does_stub_walk(from, to, &mut seen, 8)
    }

    /// `is_stub_chain` on a shared memory of the blocks seen.
    pub(crate) fn is_stub_chain_seen(&self, from: usize, to: usize, seen: &mut HashSet<usize>, fuel: usize) -> (r: bool)
        requires
            self.wf(),
            from < self.env().n(),
        ensures
            (r, final(seen)@) == self.env().stub_walk(from, to, old(seen)@, fuel as nat),
    {
        self.does_stub_walk(from, to, seen, fuel)
    }

    pub(crate) fn does_stub_claim(&self, from: usize, to: usize, cands: &HashSet<usize>) -> (r: bool)
        requires
            self.wf(),
            from < self.env().n(),
        ensures
            r == self.env().stub_claims(from, from, to, cands@, Set::empty()),
    {
        let mut seen: HashSet<usize> = HashSet::new();
        let mut x: usize = from;
        assert(seen@ =~= Set::empty());
        loop
            invariant
                self.wf(),
                x < self.env().n(),
                self.env().stub_claims(from, x, to, cands@, seen@) == self.env().stub_claims(
                    from,
                    from,
                    to,
                    cands@,
                    Set::empty(),
                ),
            decreases graph::unseen(self.env().n(), seen@),
        {
            if x == to || seen.contains(&x) {
                return false;
            }
            if x != from && cands.contains(&x) && self.pred_of(x).len() > 1 {
                return true;
            }
            if !self.is_quiet(x) {
                return false;
            }
            proof {
                graph::lemma_unseen_insert(self.env().n(), seen@, x);
            }
            match self.hop_of(x) {
                Some(y) => {
                    seen.insert(x);
                    x = y;
                },
                None => {
                    return false;
                },
            }
        }
    }

    pub(crate) fn is_stop_chain(&self, x: usize, claimed: &HashSet<usize>, loops: &Vec<usize>, fuel: usize) -> (r: bool)
        requires
            self.wf(),
            x < self.env().n(),
        ensures
            r == self.env().stop_chain(x, claimed@, loops@, fuel as nat),
        decreases fuel,
    {
        if fuel == 0 {
            return false;
        }
        if self.ends_abrupt(x) {
            return claimed.contains(&x) && self.is_quiet(x);
        }
        if !self.is_quiet(x) && !claimed.contains(&x) {
            return false;
        }
        match self.hop_of(x) {
            Some(y) => y != x && !list_has(loops, y) && self.is_stop_chain(y, claimed, loops, fuel - 1),
            None => false,
        }
    }

    #[verifier::loop_isolation(false)]
    fn does_block_write_final(&self, x: usize) -> (r: bool)
        requires
            self.wf(),
            x < self.env().n(),
        ensures
            r == self.env().block_writes_final(x),
    {
        let stmts = &self.results[x].stmts;
        let mut i: usize = 0;
        while i < stmts.len()
            invariant
                i <= stmts@.len(),
                forall|j: int| 0 <= j < i ==> !env::assigns_final(#[trigger] stmts@[j], self.env().finals),
            decreases stmts@.len() - i,
        {
            if is_assigns_final(&stmts[i], &self.final_fields) {
                assert(env::assigns_final(self.env().results[x as int].stmts@[i as int], self.env().finals));
                return true;
            }
            i += 1;
        }
        false
    }

    fn does_write_final_from(&self, x: usize, seen: &mut HashSet<usize>, fuel: usize) -> (r: bool)
        requires
            self.wf(),
            x < self.env().n(),
        ensures
            r == self.env().writes_final_from(x, old(seen)@, fuel as nat),
        decreases fuel,
    {
        if fuel == 0 || seen.contains(&x) {
            return false;
        }
        if self.does_block_write_final(x) {
            return true;
        }
        match self.hop_of(x) {
            Some(y) => {
                seen.insert(x);
                self.does_write_final_from(y, seen, fuel - 1)
            },
            None => false,
        }
    }

    pub(crate) fn does_write_final(&self, b: usize) -> (r: bool)
        requires
            self.wf(),
            b < self.env().n(),
        ensures
            r == self.env().writes_final(b),
    {
        let mut seen: HashSet<usize> = HashSet::new();
        assert(seen@ =~= Set::empty());
        self.does_write_final_from(b, &mut seen, 8)
    }

    #[verifier::loop_isolation(false)]
    fn does_store_pending(&self, b: usize, var: u32) -> (r: bool)
        requires
            self.wf(),
            b < self.env().n(),
        ensures
            r == self.env().stores_pending(b, var),
    {
        let stmts = &self.results[b].stmts;
        let mut i: usize = 0;
        while i < stmts.len()
            invariant
                i <= stmts@.len(),
                forall|j: int| 0 <= j < i ==> !env::stores_caught(#[trigger] stmts@[j], var),
            decreases stmts@.len() - i,
        {
            if is_stores_caught(&stmts[i], var) {
                assert(env::stores_caught(self.env().results[b as int].stmts@[i as int], var));
                return true;
            }
            i += 1;
        }
        false
    }

    #[verifier::loop_isolation(false)]
    pub(crate) fn is_pending_rethrow(&self, b: usize) -> (r: bool)
        requires
            self.wf(),
            b < self.env().n(),
        ensures
            r == self.env().pending_rethrow(b),
    {
        match &self.results[b].term {
            Term::Throw(Expr::Local { var, .. }) => {
                let mut i: usize = 0;
                while i < self.cfg.exc_edges.len()
                    invariant
                        self.wf(),
                        i <= self.cfg.exc_edges@.len(),
                        forall|j: int|
                            0 <= j < i ==> !self.env().stores_pending((#[trigger] self.cfg.exc_edges@[j]).to, *var),
                    decreases self.cfg.exc_edges@.len() - i,
                {
                    if self.does_store_pending(self.cfg.exc_edges[i].to, *var) {
                        assert(self.env().stores_pending(self.env().cfg.exc_edges@[i as int].to, *var));
                        return true;
                    }
                    i += 1;
                }
                false
            },
            _ => false,
        }
    }

    /// The block is the head of a retry loop.
    #[verifier::loop_isolation(false)]
    pub(crate) fn is_retry_head(&self, t: usize) -> (r: bool)
        requires
            self.wf(),
        ensures
            r == self.env().retry_head(t),
    {
        if !self.is_terminator_block(t) {
            return false;
        }
        let mut i: usize = 0;
        while i < self.cfg.exc_edges.len()
            invariant
                self.wf(),
                i <= self.cfg.exc_edges@.len(),
                forall|j: int|
                    0 <= j < i ==> !((#[trigger] self.cfg.exc_edges@[j]).from == t && self.cfg.exc_edges@[j].to != t
                        && self.env().pred(self.cfg.exc_edges@[j].to).len() == 0 && self.env().succ(
                        self.cfg.exc_edges@[j].to,
                    ).len() == 1 && self.env().succ(self.cfg.exc_edges@[j].to)[0] == t),
            decreases self.cfg.exc_edges@.len() - i,
        {
            let e = &self.cfg.exc_edges[i];
            if e.from == t && e.to != t && self.pred_of(e.to).len() == 0 && self.succ_of(e.to).len() == 1
                && self.succ_of(e.to)[0] == t {
                assert(self.env().cfg.exc_edges@[i as int].from == t);
                return true;
            }
            i += 1;
        }
        false
    }

    // -- loops ----------------------------------------------------------------

    #[verifier::loop_isolation(false)]
    pub(crate) fn does_return_into(&self, p: usize, lo: u32, hi: u32) -> (r: bool)
        requires
            self.wf(),
            p < self.env().n(),
        ensures
            r == self.env().returns_into(p, lo, hi),
    {
        let mut stack: Vec<usize> = crate::sets::copy_list(self.succ_of(p));
        let mut seen: HashSet<usize> = HashSet::new();
        let mut budget: usize = 512;
        assert(seen@ =~= Set::empty());
        while stack.len() > 0 && budget > 0
            invariant
                forall|i: int| 0 <= i < stack@.len() ==> #[trigger] stack@[i] < self.env().n(),
                self.env().flows_back(stack@, seen@, budget as nat, lo, hi) == self.env().returns_into(p, lo, hi),
            decreases budget, stack@.len(),
        {
            let ghost s0 = stack@;
            let b = stack.pop().unwrap();
            assert(stack@ == s0.drop_last());
            assert(b == s0[s0.len() - 1]);
            if seen.contains(&b) {
                continue;
            }
            let st = self.cfg.blocks[b].start;
            if lo <= st && st < hi {
                return true;
            }
            seen.insert(b);
            budget -= 1;
            let list = self.succ_of(b);
            let ghost before = stack@;
            let mut i: usize = 0;
            while i < list.len()
                invariant
                    i <= list@.len(),
                    stack@ == before + list@.take(i as int),
                decreases list@.len() - i,
            {
                stack.push(list[i]);
                i += 1;
                assert(list@.take(i as int) =~= list@.take(i - 1).push(list@[i - 1]));
            }
            assert(list@.take(i as int) =~= list@);
        }
        false
    }

    pub(crate) fn does_close(&self, cur: usize, p: usize, dom: &DomInfo, entry: usize) -> (r: bool)
        requires
            self.wf(),
            cur < self.env().n(),
            p < self.env().n(),
            dom.wf(),
            dom.idom@.len() == self.env().n(),
        ensures
            r == self.env().closes(cur, p, dom.idom@, entry),
    {
        if p == cur || dom.dominates(cur, p) {
            return true;
        }
        if dom.idom[p] == p && p != entry {
            if cur == entry {
                if !self.has_exc_edge(cur, p) {
                    return false;
                }
            } else if dom.idom[cur] == cur {
                return false;
            }
            let none: HashSet<usize> = HashSet::new();
            assert(none@ =~= Set::empty());
            return self.does_reach_exc(cur, p, &none);
        }
        false
    }

    fn is_enclosed_stub(&self, cur: usize, loops: &Vec<usize>) -> (r: bool)
        requires
            self.wf(),
            cur < self.env().n(),
        ensures
            r == self.env().enclosed_stub(cur, loops@),
    {
        let s = self.succ_of(cur);
        s.len() == 1 && s[0] != cur && (list_has(loops, s[0]) || self.sese_loop_headers.contains(&s[0])
            || self.sese_exc_retry_headers.contains(&s[0]))
    }

    /// A block is a loop header inside the universe if an edge back to it
    /// closes a cycle there.
    pub(crate) fn is_header(&self, cur: usize, universe: &HashSet<usize>, dom: &DomInfo, entry: usize, loops: &Vec<usize>) -> (r: bool)
        requires
            self.wf(),
            cur < self.env().n(),
            dom.wf(),
            dom.idom@.len() == self.env().n(),
        ensures
            r == self.env().is_loop_header(cur, universe@, dom.idom@, entry, loops@),
    {
        let stub = self.is_enclosed_stub(cur, loops);
        let mut bar: HashSet<usize> = HashSet::new();
        if stub {
            bar.insert(self.succ_of(cur)[0]);
            assert(bar@ =~= Set::empty().insert(self.env().succ(cur)[0]));
        }
        let none: HashMap<usize, Vec<usize>> = HashMap::new();
        assert(self.cfg.adj_exc(reach::lists_of(none@)) =~= self.cfg.adj());
        let preds = self.pred_of(cur);
        let mut i: usize = 0;
        while i < preds.len()
            invariant
                self.wf(),
                cur < self.env().n(),
                dom.wf(),
                dom.idom@.len() == self.env().n(),
                preds@ == self.env().pred(cur),
                forall|i: int| 0 <= i < preds@.len() ==> #[trigger] preds@[i] < self.env().n(),
                stub == self.env().enclosed_stub(cur, loops@),
                stub ==> bar@ == Set::<usize>::empty().insert(self.env().succ(cur)[0]),
                self.cfg.adj_exc(reach::lists_of(none@)) == self.cfg.adj(),
                reach::exc_ok(self.env().n(), reach::lists_of(none@)),
                i <= preds@.len(),
                forall|j: int|
                    0 <= j < i ==> !self.env().loops_from(
                        cur,
                        #[trigger] preds@[j],
                        universe@,
                        dom.idom@,
                        entry,
                        loops@,
                    ),
            decreases preds@.len() - i,
        {
            let p = preds[i];
            if p == cur {
                return true;
            }
            if universe.contains(&p) && self.does_close(cur, p, dom, entry) {
                if !stub || can_reach_cfg_barred(self.cfg, &none, cur, p, &bar, 8192) {
                    return true;
                }
            }
            i += 1;
        }
        false
    }

    // -- merges ---------------------------------------------------------------

    fn group_owned_set(&self) -> (r: HashSet<usize>)
        requires
            self.wf(),
        ensures
            r@ == self.env().group_owned(),
    {
        let mut r: HashSet<usize> = HashSet::new();
        let n = self.n();
        let mut b: usize = 0;
        while b < n
            invariant
                self.wf(),
                n == self.env().n(),
                b <= n,
                forall|x: usize| #[trigger] r@.contains(x) <==> x < b && self.env().is_handler(x),
            decreases n - b,
        {
            if self.is_handler_block(b) {
                r.insert(b);
            }
            b += 1;
        }
        let mut i: usize = 0;
        while i < self.groups.len()
            invariant
                self.wf(),
                i <= self.groups@.len(),
                forall|x: usize|
                    #[trigger] r@.contains(x) <==> self.env().is_handler(x) || exists|j: int|
                        0 <= j < i && self.cfg.at((#[trigger] self.env().groups[j]).start) == Some(x),
            decreases self.groups@.len() - i,
        {
            let ghost r0 = r@;
            let at = self.cfg.block_at(self.groups[i].start);
            assert(self.env().groups[i as int] == self.groups@[i as int]@);
            if let Some(b) = at {
                r.insert(b);
            }
            assert forall|x: usize|
                #[trigger] r@.contains(x) <==> self.env().is_handler(x) || exists|j: int|
                    0 <= j < i + 1 && self.cfg.at((#[trigger] self.env().groups[j]).start) == Some(x) by {
                if r0.contains(x) && !self.env().is_handler(x) {
                    let j = choose|j: int|
                        0 <= j < i && self.cfg.at((#[trigger] self.env().groups[j]).start) == Some(x);
                    assert(0 <= j < i + 1 && self.cfg.at(self.env().groups[j].start) == Some(x));
                }
                if at == Some(x) {
                    assert(self.cfg.at(self.env().groups[i as int].start) == Some(x));
                }
                assert(r0.contains(x) ==> r@.contains(x));
            }
            i += 1;
        }
        assert(r@ =~= self.env().group_owned());
        r
    }

    fn all_exits_abrupt(&self, b: usize) -> (r: bool)
        requires
            self.wf(),
            b < self.env().n(),
        ensures
            r == self.env().abrupt_only().contains(b),
    {
        if self.ends_abrupt(b) {
            return true;
        }
        let s = self.succ_of(b);
        if s.len() == 0 {
            return false;
        }
        let mut i: usize = 0;
        while i < s.len()
            invariant
                self.wf(),
                b < self.env().n(),
                s@ == self.env().succ(b),
                !self.env().term(b).abrupt(),
                i <= s@.len(),
                forall|j: int| 0 <= j < i ==> self.env().is_terminator(#[trigger] s@[j]),
            decreases s@.len() - i,
        {
            if !self.is_terminator_block(s[i]) {
                assert(!self.env().is_terminator(self.env().succ(b)[i as int]));
                return false;
            }
            i += 1;
        }
        true
    }

    /// The merge of the branch at `entry` inside `universe`.
    pub(crate) fn postdom_ipdom(&self, universe: &HashSet<usize>, entry: usize) -> (r: Option<usize>)
        requires
            self.wf(),
            entry < self.env().n(),
            forall|x: usize| #[trigger] universe@.contains(x) ==> x < self.env().n(),
        ensures
            r == self.env().merge(universe@, entry),
            r matches Some(c) ==> c < self.env().n(),
    {
        let n = self.n();
        let owned = self.group_owned_set();
        let mut terminators: HashSet<usize> = HashSet::new();
        let mut writers: HashSet<usize> = HashSet::new();
        let mut abrupt: HashSet<usize> = HashSet::new();
        let mut counts: Vec<usize> = Vec::new();
        let mut b: usize = 0;
        while b < n
            invariant
                self.wf(),
                n == self.env().n(),
                b <= n,
                counts@.len() == b,
                forall|i: int| 0 <= i < b ==> #[trigger] counts@[i] == self.env().results[i].stmts@.len(),
                forall|x: usize| #[trigger] terminators@.contains(x) <==> x < b && self.env().is_terminator(x),
                forall|x: usize| #[trigger] writers@.contains(x) <==> x < b && self.env().writes_final(x),
                forall|x: usize| #[trigger] abrupt@.contains(x) <==> x < b && self.env().abrupt_only().contains(x),
            decreases n - b,
        {
            if self.is_terminator_block(b) {
                terminators.insert(b);
            }
            if self.does_write_final(b) {
                writers.insert(b);
            }
            if self.all_exits_abrupt(b) {
                abrupt.insert(b);
            }
            counts.push(self.results[b].stmts.len());
            b += 1;
        }
        proof {
            let e = self.env();
            let want = e.merge_facts(universe@, entry);
            assert(terminators@ =~= e.terminators());
            assert(writers@ =~= e.final_writers());
            assert(abrupt@ =~= e.abrupt_only());
            assert(counts@ =~= want.stmt_counts);
        }
        immediate_postdom(
            self.cfg,
            self.results,
            universe,
            entry,
            &owned,
            &counts,
            &self.body_group,
            self.body_of(entry),
            &terminators,
            &abrupt,
            &writers,
        )
    }

    /// The block nearest to both `a` and `b` inside `universe`.
    pub(crate) fn branch_meet(&self, a: usize, b: usize, universe: &HashSet<usize>) -> (r: Option<usize>)
        requires
            self.wf(),
            a < self.env().n(),
            b < self.env().n(),
        ensures
            r == self.env().branch_confluence(a, b, universe@),
            r matches Some(c) ==> c < self.env().n(),
    {
        let mut srcs: Vec<usize> = Vec::new();
        srcs.push(a);
        srcs.push(b);
        assert(srcs@ =~= seq![a, b]);
        confluence(self.cfg, &srcs, universe, None)
    }
}

} // verus!
