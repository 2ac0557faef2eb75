//! A small method with a block for each kind of terminal, as a front-end
//! hands it over.

use std::sync::Arc;

use vstd::prelude::*;

use crate::cfg::{Block, Cfg};
use crate::ir::{BlockResult, ConstVal, Expr, SwitchTargets, Term};
use crate::structure::guards::WalkGuards;
use crate::structure::region::Region;
use crate::structure::structurer::Structurer;
use crate::structure::try_group;

verus! {

/// A branch over a passed and a jumped block, a table switch behind both, and
/// a lookup switch as its default. Nothing leads to the subroutine call.
pub open spec fn sample_succ(b: int) -> Seq<usize> {
    if b == 0 {
        seq![1, 2]
    } else if b == 1 || b == 2 {
        seq![3]
    } else if b == 3 {
        seq![4, 5]
    } else if b == 5 {
        seq![6, 7]
    } else {
        Seq::empty()
    }
}

/// Nine blocks of one instruction each, at the offsets 0 to 8.
pub open spec fn is_sample_graph(cfg: Cfg) -> bool {
    &&& cfg.wf()
    &&& cfg.n() == 9
    &&& cfg.entry == 0
    &&& cfg.exc_ranges@.len() == 0
    &&& cfg.exc_edges@.len() == 0
    &&& forall|b: int|
        0 <= b < 9 ==> (#[trigger] cfg.blocks@[b]).start == b && cfg.blocks@[b].end == b + 1 && cfg.blocks@[b].ins_len == 1
            && cfg.blocks@[b].succ@ == sample_succ(b)
}

/// The value that the sample tests, selects by and throws.
pub open spec fn sample_value() -> Expr {
    Expr::Const(ConstVal::Int(1))
}

/// No block has statements, and each ends in another way.
pub open spec fn is_sample_code(results: Seq<BlockResult>) -> bool {
    &&& results.len() == 9
    &&& forall|b: int| 0 <= b < 9 ==> (#[trigger] results[b]).stmts@.len() == 0 && results[b].out_stack@.len() == 0
    &&& results[0].term matches Term::Cond { cond } && *cond == sample_value()
    &&& results[1].term == Term::Fallthrough
    &&& results[2].term == Term::Goto
    &&& results[3].term matches Term::Switch { selector, targets, default } && *selector == sample_value()
        && default == Some(5u32) && (targets matches SwitchTargets::Table { low, targets } && low == 0 && targets@ == seq![4u32])
    &&& results[4].term == Term::Return(None)
    &&& results[5].term matches Term::Switch { selector, targets, default } && *selector == sample_value()
        && default == Some(7u32) && (targets matches SwitchTargets::Lookup { pairs } && pairs@ == seq![(7i32, 6u32)])
    &&& results[6].term == Term::Throw(sample_value())
    &&& results[7].term == Term::Ret
    &&& results[8].term == Term::Jsr
}

spec fn edge(a: int, b: int) -> bool {
    ||| a == 0 && (b == 1 || b == 2)
    ||| (a == 1 || a == 2) && b == 3
    ||| a == 3 && (b == 4 || b == 5)
    ||| a == 5 && (b == 6 || b == 7)
}

proof fn lemma_short(s: Seq<usize>)
    requires
        s.len() <= 2,
    ensures
        forall|x: usize| #[trigger] s.contains(x) <==> (s.len() > 0 && x == s[0]) || (s.len() > 1 && x == s[1]),
{
    assert forall|x: usize| #[trigger] s.contains(x) == ((s.len() > 0 && x == s[0]) || (s.len() > 1 && x == s[1])) by {
        if s.len() > 0 && x == s[0] {
            assert(s[0] == x);
        }
        if s.len() > 1 && x == s[1] {
            assert(s[1] == x);
        }
    }
}

fn block(id: usize, at: u32, succ: Vec<usize>, pred: Vec<usize>) -> (r: Block)
    requires
        at < u32::MAX,
        succ@.len() <= 2,
        pred@.len() <= 2,
    ensures
        r.id == id,
        r.start == at,
        r.end == at + 1,
        r.ins_len == 1,
        r.succ@ == succ@,
        r.pred@ == pred@,
        forall|x: usize|
            #[trigger] r.succ@.contains(x) <==> (succ@.len() > 0 && x == succ@[0]) || (succ@.len() > 1 && x == succ@[1]),
        forall|x: usize|
            #[trigger] r.pred@.contains(x) <==> (pred@.len() > 0 && x == pred@[0]) || (pred@.len() > 1 && x == pred@[1]),
{
    proof {
        lemma_short(succ@);
        lemma_short(pred@);
    }
    Block { id, start: at, end: at + 1, ins_len: 1, succ, pred, handlers: Vec::new() }
}

fn ending(term: Term) -> (r: BlockResult)
    ensures
        r.term == term,
        r.stmts@.len() == 0,
        r.out_stack@.len() == 0,
{
    BlockResult { stmts: Vec::new(), out_stack: Vec::new(), term }
}

fn value() -> (r: Arc<Expr>)
    ensures
        *r == sample_value(),
{
    Arc::new(Expr::Const(ConstVal::Int(1)))
}

fn sample_graph() -> (r: Cfg)
    ensures
        is_sample_graph(r),
{
    let b0 = block(0, 0, vec![1, 2], vec![]);
    let b1 = block(1, 1, vec![3], vec![0]);
    let b2 = block(2, 2, vec![3], vec![0]);
    let b3 = block(3, 3, vec![4, 5], vec![1, 2]);
    let b4 = block(4, 4, vec![], vec![3]);
    let b5 = block(5, 5, vec![6, 7], vec![3]);
    let b6 = block(6, 6, vec![], vec![5]);
    let b7 = block(7, 7, vec![], vec![5]);
    let b8 = block(8, 8, vec![], vec![]);
    let blocks = vec![b0, b1, b2, b3, b4, b5, b6, b7, b8];
    let r = Cfg { blocks, entry: 0, exc_ranges: Vec::new(), exc_edges: Vec::new() };
    assert forall|a: usize, b: usize| a < 9 && b < 9 implies (#[trigger] r.blocks@[a as int].succ@.contains(b) <==> edge(
        a as int,
        b as int,
    )) by {}
    assert forall|a: usize, b: usize| a < 9 && b < 9 implies (#[trigger] r.blocks@[b as int].pred@.contains(a) <==> edge(
        a as int,
        b as int,
    )) by {}
    assert forall|b: int| 0 <= b < 9 implies (#[trigger] r.blocks@[b]).succ@ == sample_succ(b) by {
        assert(r.blocks@[b].succ@ =~= sample_succ(b));
    }
    r
}

/// One block for each kind of terminal.
pub fn sample_method() -> (r: (Cfg, Vec<BlockResult>))
    ensures
        is_sample_graph(r.0),
        is_sample_code(r.1@),
{
    let cfg = sample_graph();
    let table: Vec<u32> = vec![4];
    let pairs: Vec<(i32, u32)> = vec![(7, 6)];
    assert(table@ =~= seq![4u32]);
    assert(pairs@ =~= seq![(7i32, 6u32)]);
    let results = vec![
        ending(Term::Cond { cond: value() }),
        ending(Term::Fallthrough),
        ending(Term::Goto),
        ending(
            Term::Switch {
                selector: value(),
                targets: SwitchTargets::Table { low: 0, targets: table },
                default: Some(5),
            },
        ),
        ending(Term::Return(None)),
        ending(
            Term::Switch {
                selector: value(),
                targets: SwitchTargets::Lookup { pairs },
                default: Some(7),
            },
        ),
        ending(Term::Throw(Expr::Const(ConstVal::Int(1)))),
        ending(Term::Ret),
        ending(Term::Jsr),
    ];
    (cfg, results)
}

/// The region of the sample, structured without limits.
pub fn sample_region() -> (r: Region)
    ensures
        exists|s: Structurer|
            is_sample_graph(*s.cfg) && is_sample_code(s.results@) && s.is_fresh(
                *s.cfg,
                s.results@,
                try_group::groups_of(*s.cfg, Some(s.results@)),
                Set::empty(),
                Map::empty(),
                s.guards,
            ) && s.untimed() && s.visits_left == u64::MAX && s.copy_budget == 512 && r.view() == #[trigger] s.env().method_region(
                s.start_cx(),
                s.start_state(),
            ).0,
        r.view().within(9, 0),
{
    let (cfg, results) = sample_method();
    let guards = WalkGuards::default();
    let mut s = Structurer::new(&cfg, &results, &guards);
    assert(try_group::groups_of(cfg, Some(results@)).len() == 0);
    let ghost fresh = s;
    let r = s.structure_method();
    assert(r.view() == fresh.env().method_region(fresh.start_cx(), fresh.start_state()).0);
    r
}

} // verus!
