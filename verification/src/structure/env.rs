//! What a structuring walk reads of its method, and the questions it asks.


use vstd::prelude::*;

use crate::cfg::Cfg;
use crate::ir::{BlockResult, Expr, Stmt, Term};
use crate::structure::cases;
use crate::structure::dominators;
use crate::structure::graph;
use crate::structure::merge_point;
use crate::structure::merge_point::MergeFacts;
use crate::structure::reach;
use crate::structure::region;
use crate::structure::try_group::GroupView;

verus! {

/// The fixed facts of a method: its graph, what its blocks produced, its try
/// groups and who belongs to them, folded diamonds, and known loop headers.
pub struct Env {
    pub cfg: Cfg,
    pub results: Seq<BlockResult>,
    pub groups: Seq<GroupView>,
    pub body: Map<usize, usize>,
    pub handler: Map<usize, usize>,
    pub diamonds: Set<usize>,
    pub folds: Map<usize, (usize, Set<usize>)>,
    pub roots: Map<usize, usize>,
    pub headers: Set<usize>,
    pub retry: Set<usize>,
    pub finals: Seq<Seq<char>>,
    /// Copies may cross shared tails.
    pub allow: bool,
}

/// The statement assigns a field named in `finals`.
pub open spec fn assigns_final(s: Stmt, finals: Seq<Seq<char>>) -> bool {
    s matches Stmt::ExprStmt(e) && e matches Expr::Assign { target, .. } && *target matches Expr::Field {
        name,
        ..
    } && finals.contains(name@)
}

/// The statement stores the caught exception (a null placeholder) in `var`.
pub open spec fn stores_caught(s: Stmt, var: u32) -> bool {
    match s {
        Stmt::LocalDef { var: v, init, .. } => v == var && (init matches Some(e) && e matches Expr::Const(c)
            && c is Null),
        Stmt::ExprStmt(e) => e matches Expr::Assign { target, value, .. } && (*target matches Expr::Local {
            var: v,
            ..
        } && v == var) && (*value matches Expr::Const(c) && c is Null),
        _ => false,
    }
}

/// The statement defines a local with a value, or assigns one.
pub open spec fn sets_local(s: Stmt) -> bool {
    match s {
        Stmt::LocalDef { init, .. } => init is Some,
        Stmt::ExprStmt(e) => e matches Expr::Assign { target, .. } && *target is Local,
        _ => false,
    }
}

/// The statement enters or leaves a monitor.
pub open spec fn is_monitor(s: Stmt) -> bool {
    s is MonitorEnter || s is MonitorExit
}

/// Every switch table fits.
pub open spec fn tables_fit(results: Seq<BlockResult>) -> bool {
    forall|b: int| 0 <= b < results.len() ==> cases::table_fits((#[trigger] results[b]).term)
}

impl Env {
    pub open spec fn n(self) -> nat {
        self.cfg.n()
    }

    pub open spec fn wf(self) -> bool {
        &&& self.cfg.wf()
        &&& self.n() < usize::MAX - 2
        &&& self.results.len() >= self.n()
        &&& forall|b: usize| #[trigger] self.body.dom().contains(b) ==> b < self.n() && self.body[b] < self.groups.len()
        &&& forall|b: usize|
            #[trigger] self.handler.dom().contains(b) ==> b < self.n() && self.handler[b] < self.groups.len()
        &&& tables_fit(self.results)
    }

    pub open spec fn succ(self, b: usize) -> Seq<usize> {
        self.cfg.succ(b)
    }

    pub open spec fn pred(self, b: usize) -> Seq<usize> {
        self.cfg.pred(b)
    }

    pub open spec fn start(self, b: usize) -> u32 {
        self.cfg.start(b)
    }

    pub open spec fn end(self, b: usize) -> u32 {
        self.cfg.end(b)
    }

    pub open spec fn term(self, b: usize) -> Term {
        self.results[b as int].term
    }

    /// The block has no statements.
    pub open spec fn quiet(self, b: usize) -> bool {
        self.results[b as int].stmts@.len() == 0
    }

    pub open spec fn is_handler(self, b: usize) -> bool {
        self.handler.dom().contains(b)
    }

    pub open spec fn in_body(self, b: usize, gi: usize) -> bool {
        self.body.dom().contains(b) && self.body[b] == gi
    }

    pub open spec fn handles(self, b: usize, gi: usize) -> bool {
        self.handler.dom().contains(b) && self.handler[b] == gi
    }

    pub open spec fn is_terminator(self, b: usize) -> bool {
        region::abrupt_block(self.results, b)
    }

    /// The one block that follows a plain block.
    pub open spec fn hop(self, b: usize) -> Option<usize> {
        if self.term(b).plain() && self.succ(b).len() == 1 {
            Some(self.succ(b)[0])
        } else {
            None
        }
    }

    /// The block lies in the span of the group.
    pub open spec fn in_span(self, b: usize, g: GroupView) -> bool {
        self.start(b) >= g.start && (self.end(b) <= g.end || self.end(b) <= g.start + 1)
    }

    /// Some group starts at `pc`.
    pub open spec fn group_starts(self, pc: u32) -> bool {
        exists|i: int| 0 <= i < self.groups.len() && (#[trigger] self.groups[i]).start == pc
    }

    /// Some exception leaves the block.
    pub open spec fn throws_out(self, b: usize) -> bool {
        exists|i: int| 0 <= i < self.cfg.exc_edges@.len() && (#[trigger] self.cfg.exc_edges@[i]).from == b
    }

    pub open spec fn exc_edge(self, a: usize, b: usize) -> bool {
        exists|i: int|
            0 <= i < self.cfg.exc_edges@.len() && (#[trigger] self.cfg.exc_edges@[i]).from == a
                && self.cfg.exc_edges@[i].to == b
    }

    /// The handlers that exceptions of the first `k` edges lead to, per block.
    pub open spec fn exc_upto(self, k: nat) -> Map<usize, Seq<usize>>
        decreases k,
    {
        if k == 0 {
            Map::empty()
        } else {
            let m = self.exc_upto((k - 1) as nat);
            let e = self.cfg.exc_edges@[k - 1];
            if m.dom().contains(e.from) {
                m.insert(e.from, m[e.from].push(e.to))
            } else {
                m.insert(e.from, seq![e.to])
            }
        }
    }

    pub open spec fn exc(self) -> Map<usize, Seq<usize>> {
        self.exc_upto(self.cfg.exc_edges@.len())
    }

    /// `to` is reached over normal edges within `budget` expansions.
    pub open spec fn reaches(self, from: usize, to: usize, budget: nat) -> bool {
        reach::reached(self.cfg.flow(Set::empty()), from, to, budget)
    }

    /// `to` is reached over normal and exceptional edges without entering `bar`.
    pub open spec fn reaches_exc(self, from: usize, to: usize, bar: Set<usize>) -> bool {
        reach::reached(self.cfg.flow_exc(self.exc(), bar), from, to, 8192)
    }

    /// Following statement-free plain blocks leads from `x` to `to` in fewer
    /// than `fuel` hops over unseen blocks; with the blocks seen then.
    pub open spec fn stub_walk(self, x: usize, to: usize, seen: Set<usize>, fuel: nat) -> (bool, Set<usize>)
        decreases fuel,
    {
        if fuel == 0 {
            (false, seen)
        } else if x == to {
            (true, seen)
        } else if seen.contains(x) {
            (false, seen)
        } else if !self.quiet(x) || self.hop(x) is None {
            (false, seen.insert(x))
        } else {
            self.stub_walk(self.hop(x)->0, to, seen.insert(x), (fuel - 1) as nat)
        }
    }

    /// A way that is found ends at a block.
    pub(crate) proof fn lemma_stub_target(self, x: usize, to: usize, seen: Set<usize>, fuel: nat)
        requires
            self.wf(),
            x < self.n(),
            self.stub_walk(x, to, seen, fuel).0,
        ensures
            to < self.n(),
        decreases fuel,
    {
        if fuel > 0 && x != to && !seen.contains(x) && self.quiet(x) && self.hop(x) is Some {
            self.lemma_stub_target(self.hop(x)->0, to, seen.insert(x), (fuel - 1) as nat);
        }
    }

    pub open spec fn stub_chain(self, from: usize, to: usize) -> bool {
        self.stub_walk(from, to, Set::empty(), 8).0
    }

    /// The way of statement-free plain blocks from `x` to `to` passes a
    /// candidate that several blocks flow into.
    pub open spec fn stub_claims(self, from: usize, x: usize, to: usize, cands: Set<usize>, seen: Set<usize>) -> bool
        decreases graph::unseen(self.n(), seen),
    {
        if x == to || seen.contains(x) || x >= self.n() || self.n() > usize::MAX {
            false
        } else if x != from && cands.contains(x) && self.pred(x).len() > 1 {
            true
        } else if !self.quiet(x) || self.hop(x) is None {
            false
        } else {
            proof {
                graph::lemma_unseen_insert(self.n(), seen, x);
            }
            self.stub_claims(from, self.hop(x)->0, to, cands, seen.insert(x))
        }
    }

    /// A plain chain from `x` ends in a claimed return or throw without
    /// statements of its own.
    pub open spec fn stop_chain(self, x: usize, claimed: Set<usize>, loops: Seq<usize>, fuel: nat) -> bool
        decreases fuel,
    {
        if fuel == 0 {
            false
        } else if self.term(x).abrupt() {
            claimed.contains(x) && self.quiet(x)
        } else if !self.quiet(x) && !claimed.contains(x) {
            false
        } else {
            match self.hop(x) {
                Some(y) => y != x && !loops.contains(y) && self.stop_chain(y, claimed, loops, (fuel - 1) as nat),
                None => false,
            }
        }
    }

    /// A plain chain of fewer than `fuel` unseen blocks from `x` assigns a final field.
    pub open spec fn writes_final_from(self, x: usize, seen: Set<usize>, fuel: nat) -> bool
        decreases fuel,
    {
        if fuel == 0 || seen.contains(x) {
            false
        } else if self.block_writes_final(x) {
            true
        } else {
            match self.hop(x) {
                Some(y) => self.writes_final_from(y, seen.insert(x), (fuel - 1) as nat),
                None => false,
            }
        }
    }

    pub open spec fn block_writes_final(self, x: usize) -> bool {
        exists|i: int|
            0 <= i < self.results[x as int].stmts@.len() && assigns_final(
                #[trigger] self.results[x as int].stmts@[i],
                self.finals,
            )
    }

    pub open spec fn writes_final(self, b: usize) -> bool {
        self.writes_final_from(b, Set::empty(), 8)
    }

    /// The block throws the exception that a handler entry stored.
    pub open spec fn pending_rethrow(self, b: usize) -> bool {
        self.term(b) matches Term::Throw(e) && e matches Expr::Local { var, .. } && exists|i: int|
            0 <= i < self.cfg.exc_edges@.len() && self.stores_pending((#[trigger] self.cfg.exc_edges@[i]).to, var)
    }

    pub open spec fn stores_pending(self, b: usize, var: u32) -> bool {
        exists|j: int|
            0 <= j < self.results[b as int].stmts@.len() && stores_caught(
                #[trigger] self.results[b as int].stmts@[j],
                var,
            )
    }

    /// The block is protected by a handler that only returns to it, and is a
    /// return or throw: the head of a retry loop.
    pub open spec fn retry_head(self, t: usize) -> bool {
        self.is_terminator(t) && exists|i: int|
            0 <= i < self.cfg.exc_edges@.len() && (#[trigger] self.cfg.exc_edges@[i]).from == t
                && self.cfg.exc_edges@[i].to != t && self.pred(self.cfg.exc_edges@[i].to).len() == 0
                && self.succ(self.cfg.exc_edges@[i].to).len() == 1 && self.succ(
                self.cfg.exc_edges@[i].to,
            )[0] == t
    }

    // -- dominance ----------------------------------------------------------

    /// Normal flow from one of `stack` comes into the span within the budget.
    pub open spec fn flows_back(self, stack: Seq<usize>, seen: Set<usize>, budget: nat, lo: u32, hi: u32) -> bool
        decreases budget, stack.len(),
    {
        if stack.len() == 0 || budget == 0 {
            false
        } else {
            let b = stack.last();
            let rest = stack.drop_last();
            if seen.contains(b) {
                self.flows_back(rest, seen, budget, lo, hi)
            } else if lo <= self.start(b) < hi {
                true
            } else {
                self.flows_back(rest + self.succ(b), seen.insert(b), (budget - 1) as nat, lo, hi)
            }
        }
    }

    /// Normal flow behind `p` comes into the span.
    pub open spec fn returns_into(self, p: usize, lo: u32, hi: u32) -> bool {
        self.flows_back(self.succ(p), Set::empty(), 512, lo, hi)
    }

    /// The normal edge from `p` to `cur` closes a cycle at `cur`: `cur`
    /// dominates `p`, or `p` is reached by exceptions only and `cur` leads there.
    pub open spec fn closes(self, cur: usize, p: usize, idom: Seq<usize>, entry: usize) -> bool {
        ||| p == cur
        ||| dominators::is_above(idom, cur, p)
        ||| {
            &&& idom[p as int] == p
            &&& p != entry
            &&& if cur == entry {
                self.exc_edge(cur, p)
            } else {
                idom[cur as int] != cur
            }
            &&& self.reaches_exc(cur, p, Set::empty())
        }
    }

    /// The only successor of `cur` is another, enclosing loop header.
    pub open spec fn enclosed_stub(self, cur: usize, loops: Seq<usize>) -> bool {
        self.succ(cur).len() == 1 && self.succ(cur)[0] != cur && (loops.contains(self.succ(cur)[0])
            || self.headers.contains(self.succ(cur)[0]) || self.retry.contains(self.succ(cur)[0]))
    }

    /// The edge from `p` makes `cur` a loop header.
    pub open spec fn loops_from(self, cur: usize, p: usize, universe: Set<usize>, idom: Seq<usize>, entry: usize, loops: Seq<usize>) -> bool {
        ||| p == cur
        ||| {
            &&& universe.contains(p)
            &&& self.closes(cur, p, idom, entry)
            &&& !self.enclosed_stub(cur, loops) || reach::reached(
                self.cfg.flow(Set::empty().insert(self.succ(cur)[0])),
                cur,
                p,
                8192,
            )
        }
    }

    pub open spec fn is_loop_header(self, cur: usize, universe: Set<usize>, idom: Seq<usize>, entry: usize, loops: Seq<usize>) -> bool {
        exists|k: int|
            0 <= k < self.pred(cur).len() && self.loops_from(
                cur,
                #[trigger] self.pred(cur)[k],
                universe,
                idom,
                entry,
                loops,
            )
    }

    // -- merges ---------------------------------------------------------------

    pub open spec fn terminators(self) -> Set<usize> {
        Set::new(|b: usize| b < self.n() && self.is_terminator(b))
    }

    pub open spec fn final_writers(self) -> Set<usize> {
        Set::new(|b: usize| b < self.n() && self.writes_final(b))
    }

    /// Handler heads and the first blocks of groups.
    pub open spec fn group_owned(self) -> Set<usize> {
        Set::new(
            |b: usize|
                self.is_handler(b) || exists|i: int|
                    0 <= i < self.groups.len() && self.cfg.at((#[trigger] self.groups[i]).start) == Some(b),
        )
    }

    /// Blocks whose every exit is a return or throw.
    pub open spec fn abrupt_only(self) -> Set<usize> {
        Set::new(
            |b: usize|
                b < self.n() && (self.term(b).abrupt() || (self.succ(b).len() > 0 && forall|k: int|
                    0 <= k < self.succ(b).len() ==> self.is_terminator(#[trigger] self.succ(b)[k]))),
        )
    }

    pub open spec fn merge_facts(self, universe: Set<usize>, entry: usize) -> MergeFacts {
        MergeFacts {
            results: self.results,
            universe,
            group_owned: self.group_owned(),
            stmt_counts: Seq::new(self.n(), |i: int| self.results[i].stmts@.len() as usize),
            body_group_of: self.body,
            entry_group: if self.body.dom().contains(entry) {
                Some(self.body[entry])
            } else {
                None
            },
            terminators: self.terminators(),
            abrupt_only: self.abrupt_only(),
            final_writers: self.final_writers(),
        }
    }

    /// The merge of the branch at `entry` inside `universe`.
    pub open spec fn merge(self, universe: Set<usize>, entry: usize) -> Option<usize> {
        merge_point::merge_of(self.cfg, self.merge_facts(universe, entry), entry)
    }

    /// The block nearest to both `a` and `b`.
    pub open spec fn branch_confluence(self, a: usize, b: usize, universe: Set<usize>) -> Option<usize> {
        let not: Option<usize> = None;
        merge_point::nearest_of(
            self.cfg,
            merge_point::repeated(self.cfg.within(universe), 2),
            seq![a, b],
            |c: usize| not != Some(c),
        )
    }
}

} // verus!
