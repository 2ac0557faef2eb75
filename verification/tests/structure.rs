use std::collections::{HashMap, HashSet};
use std::sync::Arc;
use std::time::{Duration, Instant};

use jdc_core::cfg::{Block, Cfg, ExcEdge, ExcRange};
use jdc_core::ir::{AssignOp, BinOp, BlockResult, ConstVal, Expr, Stmt, SwitchTargets, Term, TypeRef};
use jdc_core::structure::sample::{sample_method, sample_region};
use jdc_core::structure::{
    can_reach_avoiding, can_reach_cfg, can_reach_cfg_barred, compute_dominators, compute_postdominators,
    group_exceptions, group_exceptions_with, immediate_postdom, reachable_within, reset_visit_stats,
    reverse_postorder, set_budget_override, set_dom_counters, set_walk_deadline, set_walk_visit_budget,
    walk_visits_consumed, Region, Structurer, WalkGuards,
};
use jdc_core::types::JavaType;

fn blk(id: usize, start: u32, len: u32, succ: Vec<usize>) -> Block {
    Block {
        id,
        start,
        end: start + len,
        ins_len: len,
        succ,
        pred: Vec::new(),
        handlers: Vec::new(),
    }
}

fn graph(mut blocks: Vec<Block>, rows: Vec<ExcRange>) -> Cfg {
    for b in 0..blocks.len() {
        for t in blocks[b].succ.clone() {
            if !blocks[t].pred.contains(&b) {
                blocks[t].pred.push(b);
            }
        }
    }
    let mut exc_edges = Vec::new();
    for r in &rows {
        let to = blocks.iter().position(|b| b.start == r.handler).unwrap();
        for b in 0..blocks.len() {
            if blocks[b].start >= r.start && blocks[b].start < r.end {
                exc_edges.push(ExcEdge { from: b, to });
            }
        }
    }
    Cfg { blocks, entry: 0, exc_ranges: rows, exc_edges }
}

fn row(start: u32, end: u32, handler: u32, ty: Option<&str>) -> ExcRange {
    ExcRange { start, end, handler, catch_type: ty.map(|t| t.to_string()) }
}

fn res(stmts: Vec<Stmt>, term: Term) -> BlockResult {
    BlockResult { stmts, out_stack: Vec::new(), term }
}

fn local(var: u32) -> Expr {
    Expr::Local { var, ty: TypeRef::J(JavaType::Int) }
}

fn num(i: i32) -> Expr {
    Expr::Const(ConstVal::Int(i))
}

fn assign(var: u32, value: Expr) -> Stmt {
    Stmt::ExprStmt(Expr::Assign {
        target: Box::new(local(var)),
        op: AssignOp::Plain,
        value: Box::new(value),
    })
}

fn less(a: Expr, b: Expr) -> Arc<Expr> {
    Arc::new(Expr::Bin {
        op: BinOp::Lt,
        l: Box::new(a),
        r: Box::new(b),
        ty: Some(TypeRef::J(JavaType::Int)),
    })
}

fn cond() -> Term {
    Term::Cond { cond: less(local(0), local(1)) }
}

fn work(v: i32) -> Vec<Stmt> {
    vec![assign(2, num(v))]
}

fn set(v: &[usize]) -> HashSet<usize> {
    v.iter().copied().collect()
}

fn opt(f: &Option<usize>) -> String {
    match f {
        Some(x) => x.to_string(),
        None => "-".to_string(),
    }
}

fn shape(r: &Region) -> String {
    match r {
        Region::Basic { block } => format!("B{}", block),
        Region::Sequence(v) => {
            let parts: Vec<String> = v.iter().map(shape).collect();
            format!("[{}]", parts.join(" "))
        }
        Region::If { block, then_r, else_r, follow, ternary, .. } => format!(
            "if{}({}|{})>{}{}",
            block,
            shape(then_r),
            shape(else_r),
            opt(follow),
            if ternary.is_some() { "?" } else { "" }
        ),
        Region::Loop { header, body, members, exits } => {
            let mut m: Vec<usize> = members.iter().copied().collect();
            m.sort();
            format!("loop{}({}){:?}>{:?}", header, shape(body), m, exits)
        }
        Region::Switch { block, cases, default, follow, .. } => {
            let cs: Vec<String> = cases.iter().map(|c| format!("{:?}:{}", c.0, shape(&c.1))).collect();
            let d = match default {
                Some(d) => shape(d),
                None => "-".to_string(),
            };
            format!("switch{}({} default:{})>{}", block, cs.join(" "), d, opt(follow))
        }
        Region::Try { group_idx, body, catches } => {
            let cs: Vec<String> = catches
                .iter()
                .map(|c| format!("{}@{}:{}", c.0.join("|"), c.1, shape(&c.2)))
                .collect();
            format!("try{}({} catch {})", group_idx, shape(body), cs.join(" "))
        }
        Region::Goto { target } => format!("G{}", target),
        Region::CopyStmts { block } => format!("C{}", block),
        Region::Empty => "_".to_string(),
    }
}

fn structured(cfg: &Cfg, results: &Vec<BlockResult>) -> String {
    let mut s = Structurer::new(cfg, results, &WalkGuards::default());
    shape(&s.structure_method())
}

/// i = 0; while (i < n) { if (..) r = 1; else r = 2; i = i + 1; } return r;
fn counted_loop() -> (Cfg, Vec<BlockResult>) {
    let cfg = graph(
        vec![
            blk(0, 0, 2, vec![1]),
            blk(1, 2, 2, vec![6, 2]),
            blk(2, 4, 2, vec![4, 3]),
            blk(3, 6, 2, vec![5]),
            blk(4, 8, 2, vec![5]),
            blk(5, 10, 2, vec![1]),
            blk(6, 12, 2, vec![]),
        ],
        vec![],
    );
    let results = vec![
        res(work(0), Term::Goto),
        res(vec![], cond()),
        res(vec![], cond()),
        res(work(3), Term::Goto),
        res(work(4), Term::Goto),
        res(work(5), Term::Goto),
        res(vec![Stmt::Return(Some(local(2)))], Term::Return(None)),
    ];
    (cfg, results)
}

fn table_switch() -> (Cfg, Vec<BlockResult>) {
    let cfg = graph(
        vec![
            blk(0, 0, 2, vec![1]),
            blk(1, 2, 2, vec![2, 3, 4]),
            blk(2, 4, 2, vec![5]),
            blk(3, 6, 2, vec![5]),
            blk(4, 8, 2, vec![5]),
            blk(5, 10, 2, vec![]),
        ],
        vec![],
    );
    let results = vec![
        res(vec![], Term::Fallthrough),
        res(
            vec![],
            Term::Switch {
                selector: Arc::new(local(0)),
                targets: SwitchTargets::Table { low: 0, targets: vec![4, 6] },
                default: Some(8),
            },
        ),
        res(work(10), Term::Goto),
        res(work(20), Term::Goto),
        res(work(30), Term::Goto),
        res(vec![Stmt::Return(Some(local(2)))], Term::Return(None)),
    ];
    (cfg, results)
}

fn try_catch() -> (Cfg, Vec<BlockResult>) {
    let cfg = graph(
        vec![blk(0, 0, 4, vec![1]), blk(1, 4, 2, vec![]), blk(2, 6, 2, vec![])],
        vec![row(0, 4, 6, Some("java/lang/IllegalStateException"))],
    );
    let results = vec![
        res(work(1), Term::Fallthrough),
        res(vec![], Term::Return(None)),
        res(
            vec![Stmt::LocalDef { var: 1, init: None, is_final: false, force_type: true }],
            Term::Throw(local(1)),
        ),
    ];
    (cfg, results)
}

fn diamond() -> Cfg {
    graph(
        vec![
            blk(0, 0, 2, vec![1, 2]),
            blk(1, 2, 2, vec![3]),
            blk(2, 4, 2, vec![3]),
            blk(3, 6, 2, vec![]),
        ],
        vec![],
    )
}

#[test]
fn loop_with_if_else() {
    let (cfg, results) = counted_loop();
    assert_eq!(structured(&cfg, &results), "[B0 loop1(if1([if2([B3 G5]|[B4 G5])>5 B5 G1]|_)>-)[1, 2, 3, 4, 5]>[6] B6]");
}

#[test]
fn switch_with_default() {
    let (cfg, results) = table_switch();
    assert_eq!(structured(&cfg, &results), "[B0 switch1([0]:[B2 G5] [1]:[B3 G5] default:[B4 G5])>5 B5]");
}

#[test]
fn lookup_switch_merges_equal_targets() {
    let (cfg, mut results) = table_switch();
    results[1].term = Term::Switch {
        selector: Arc::new(local(0)),
        targets: SwitchTargets::Lookup { pairs: vec![(7, 6), (-3, 4), (9, 6), (11, 8)] },
        default: Some(8),
    };
    assert_eq!(structured(&cfg, &results), "[B0 switch1([-3]:[B2 G5] [7, 9]:[B3 G5] default:[B4 G5])>5 B5]");
}

#[test]
fn try_with_typed_catch() {
    let (cfg, results) = try_catch();
    assert_eq!(structured(&cfg, &results), "try0([B0 B1] catch java/lang/IllegalStateException@2:B2)");
}

#[test]
fn if_else_with_merge() {
    let cfg = diamond();
    let results = vec![
        res(vec![], cond()),
        res(work(1), Term::Goto),
        res(work(2), Term::Fallthrough),
        res(work(3), Term::Return(None)),
    ];
    assert_eq!(structured(&cfg, &results), "if0([B2 B3]|[B1 C3])>-");
}

#[test]
fn value_diamond_is_jumped() {
    let cfg = diamond();
    let mut results = vec![
        res(work(0), cond()),
        res(vec![], Term::Goto),
        res(vec![], Term::Fallthrough),
        res(work(3), Term::Return(None)),
    ];
    results[1].out_stack.push(Arc::new(num(1)));
    results[2].out_stack.push(Arc::new(num(2)));
    assert_eq!(structured(&cfg, &results), "[B0 B3]");
}

#[test]
fn folded_region_collapses() {
    let cfg = diamond();
    let results = vec![
        res(work(0), cond()),
        res(work(1), Term::Goto),
        res(work(2), Term::Fallthrough),
        res(work(3), Term::Return(None)),
    ];
    let mut folds = HashMap::new();
    folds.insert(3, (0, set(&[1, 2])));
    let mut s = Structurer::with_diamonds(&cfg, &results, set(&[3]), folds, &WalkGuards::default());
    assert_eq!(s.fold_root_to_merge.get(&0), Some(&3));
    assert_eq!(shape(&s.structure_method()), "[B0 B3]");
}

#[test]
fn fold_to_a_missing_merge_ends_the_walk() {
    let cfg = diamond();
    let results = vec![
        res(work(0), cond()),
        res(work(1), Term::Goto),
        res(work(2), Term::Fallthrough),
        res(work(3), Term::Return(None)),
    ];
    let mut folds = HashMap::new();
    folds.insert(9, (0, set(&[1, 2])));
    let mut s = Structurer::with_diamonds(&cfg, &results, set(&[]), folds, &WalkGuards::default());
    assert_eq!(s.fold_root_to_merge.get(&0), Some(&9));
    assert_eq!(shape(&s.structure_method()), "B0");
}

#[test]
fn entry_that_ends_the_method_is_all() {
    let cfg = graph(vec![blk(0, 0, 2, vec![]), blk(1, 2, 2, vec![])], vec![]);
    for term in vec![Term::Return(None), Term::Throw(local(0)), Term::Ret, Term::Jsr] {
        let results = vec![res(work(0), term), res(work(1), Term::Return(None))];
        assert_eq!(structured(&cfg, &results), "B0");
    }
}

#[test]
fn switch_with_a_throwing_arm() {
    let cfg = graph(
        vec![
            blk(0, 0, 2, vec![1, 2, 3]),
            blk(1, 2, 2, vec![4]),
            blk(2, 4, 2, vec![4]),
            blk(3, 6, 2, vec![]),
            blk(4, 8, 2, vec![]),
        ],
        vec![],
    );
    let results = vec![
        res(
            vec![],
            Term::Switch {
                selector: Arc::new(local(0)),
                targets: SwitchTargets::Table { low: 0, targets: vec![2, 4] },
                default: Some(6),
            },
        ),
        res(work(1), Term::Goto),
        res(work(2), Term::Goto),
        res(vec![], Term::Throw(local(1))),
        res(work(4), Term::Return(None)),
    ];
    assert_eq!(structured(&cfg, &results), "[switch0([0]:[B1 G4] [1]:[B2 G4] default:B3)>4 B4]");
}

#[test]
fn every_kind_of_terminal() {
    let (cfg, results) = sample_method();
    assert_eq!(cfg.blocks.len(), 9);
    assert_eq!(results.len(), 9);
    assert_eq!(shape(&sample_region()), structured(&cfg, &results));
    assert_eq!(shape(&sample_region()), "switch3([0]:B4 default:switch5([7]:B6 default:B7)>-)>-");
}

#[test]
fn early_return_in_both_arms() {
    let cfg = graph(
        vec![blk(0, 0, 2, vec![1, 2]), blk(1, 2, 2, vec![]), blk(2, 4, 2, vec![])],
        vec![],
    );
    let results = vec![
        res(vec![], cond()),
        res(work(1), Term::Return(None)),
        res(work(2), Term::Throw(local(0))),
    ];
    assert_eq!(structured(&cfg, &results), "if0(B2|B1)>-");
}

#[test]
fn nested_try_groups() {
    let cfg = graph(
        vec![
            blk(0, 0, 2, vec![1]),
            blk(1, 2, 2, vec![2]),
            blk(2, 4, 2, vec![]),
            blk(3, 6, 2, vec![2]),
            blk(4, 8, 2, vec![2]),
        ],
        vec![row(2, 4, 6, Some("a/Inner")), row(0, 4, 8, Some("a/Outer")), row(0, 4, 8, Some("a/Other"))],
    );
    let results = vec![
        res(work(0), Term::Fallthrough),
        res(work(1), Term::Goto),
        res(work(2), Term::Return(None)),
        res(work(3), Term::Goto),
        res(work(4), Term::Goto),
    ];
    assert_eq!(structured(&cfg, &results), "try0([B0 try1([B1 C2] catch a/Inner@3:[B3 B2])] catch a/Outer|a/Other@4:[B4 C2])");
}

#[test]
fn no_visits_left_is_a_jump() {
    let (cfg, results) = counted_loop();
    let mut g = WalkGuards::default();
    set_walk_visit_budget(&mut g, Some(0));
    let mut s = Structurer::new(&cfg, &results, &g);
    assert_eq!(shape(&s.structure_method()), "G0");
    assert_eq!(walk_visits_consumed(&s.guards), 0);
    set_walk_visit_budget(&mut g, Some(1));
    let mut s = Structurer::new(&cfg, &results, &g);
    assert_eq!(shape(&s.structure_method()), "[B0 loop1(G1)[1, 2, 3, 4, 5]>[6] B6]");
    assert_eq!(walk_visits_consumed(&s.guards), 1);
    assert_eq!(s.visits_left, 0);
    reset_visit_stats(&mut s.guards);
    assert_eq!(walk_visits_consumed(&s.guards), 0);
}

#[test]
fn passed_deadline_is_a_jump() {
    let (cfg, results) = counted_loop();
    let mut g = WalkGuards::default();
    set_walk_deadline(&mut g, Some(Instant::now()));
    let mut s = Structurer::new(&cfg, &results, &g);
    assert_eq!(shape(&s.structure_method()), "G0");
    assert_eq!(walk_visits_consumed(&s.guards), 0);
    set_walk_deadline(&mut g, None);
    let mut s = Structurer::new(&cfg, &results, &g);
    assert_ne!(shape(&s.structure_method()), "G0");
}

#[test]
fn deadline_ahead_changes_nothing() {
    for (cfg, results) in [counted_loop(), table_switch(), try_catch()] {
        let mut g = WalkGuards::default();
        set_walk_deadline(&mut g, Some(Instant::now() + Duration::from_secs(3600)));
        let mut s = Structurer::new(&cfg, &results, &g);
        assert_eq!(shape(&s.structure_method()), structured(&cfg, &results));
        set_walk_visit_budget(&mut g, Some(0));
        let mut s = Structurer::new(&cfg, &results, &g);
        assert_eq!(shape(&s.structure_method()), "G0");
    }
}

#[test]
fn late_start_is_a_jump() {
    let (cfg, results) = counted_loop();
    let mut g = WalkGuards::default();
    let now = Instant::now();
    set_walk_deadline(&mut g, Some(now));
    let mut s = Structurer::new(&cfg, &results, &g);
    assert_eq!(shape(&s.structure_method_unless(Some(now))), "G0");
    set_walk_deadline(&mut g, None);
    let mut s = Structurer::new(&cfg, &results, &g);
    assert_eq!(shape(&s.structure_method_unless(None)), structured(&cfg, &results));
}

#[test]
fn guards_are_installed() {
    let (cfg, results) = counted_loop();
    let mut g = WalkGuards::default();
    assert_eq!(Structurer::new(&cfg, &results, &g).copy_budget, 512);
    assert_eq!(Structurer::new(&cfg, &results, &g).visits_left, u64::MAX);
    set_budget_override(&mut g, Some(7));
    set_dom_counters(&mut g, true);
    let mut s = Structurer::new(&cfg, &results, &g);
    assert_eq!(s.copy_budget, 7);
    s.structure_method();
    // The method, one loop, and five scopes: method, loop body and three branch sides.
    assert_eq!(s.guards.dom_calls, 7);
    assert_eq!(s.guards.dom_blocks, s.guards.dom_calls * 7);
    set_budget_override(&mut g, None);
    assert_eq!(Structurer::new(&cfg, &results, &g).copy_budget, 512);
}

#[test]
fn dominator_tree_of_a_diamond() {
    let cfg = diamond();
    let d = compute_dominators(&cfg, &set(&[0, 1, 2, 3]), 0);
    assert_eq!(d.idom, vec![0, 0, 0, 0]);
    assert!(d.dominates(0, 3));
    assert!(!d.dominates(1, 3));
    assert!(d.dominates(3, 3));
    assert!(!d.dominates(9, 3));
    assert_eq!(reverse_postorder(&cfg, 0, &set(&[0, 1, 2, 3])), vec![0, 2, 1, 3]);
    assert_eq!(reverse_postorder(&cfg, 0, &set(&[1, 2, 3])), Vec::<usize>::new());
    let within = compute_dominators(&cfg, &set(&[0, 1, 3]), 0);
    assert_eq!(within.idom, vec![0, 0, 2, 1]);
}

#[test]
fn post_dominators_of_a_diamond() {
    let cfg = diamond();
    let (exit, ip) = compute_postdominators(&cfg, &set(&[0, 1, 2, 3]));
    assert_eq!(exit, 4);
    assert_eq!(ip[&0], 3);
    assert_eq!(ip[&1], 3);
    assert_eq!(ip[&2], 3);
    assert_eq!(ip[&3], 4);
    assert_eq!(ip[&4], 4);
}

#[test]
fn reachability_and_budgets() {
    let cfg = diamond();
    assert_eq!(reachable_within(&cfg, 0, &set(&[3])), set(&[0, 1, 2]));
    assert_eq!(reachable_within(&cfg, 0, &set(&[0])), set(&[]));
    assert!(can_reach_cfg(&cfg, 0, 3, 2));
    assert!(!can_reach_cfg(&cfg, 0, 3, 1));
    assert!(can_reach_cfg(&cfg, 3, 3, 0));
    let none = HashMap::new();
    assert!(can_reach_avoiding(&cfg, &none, 0, 3, 1, 8));
    assert!(!can_reach_avoiding(&cfg, &none, 1, 3, 1, 8));
    assert!(!can_reach_cfg_barred(&cfg, &none, 0, 3, &set(&[1, 2]), 8));
    let mut exc = HashMap::new();
    exc.insert(0, vec![3]);
    assert!(can_reach_cfg_barred(&cfg, &exc, 0, 3, &set(&[1, 2]), 8));
}

#[test]
fn merge_of_a_branch() {
    let cfg = diamond();
    let results = vec![
        res(vec![], cond()),
        res(work(1), Term::Goto),
        res(work(2), Term::Fallthrough),
        res(work(3), Term::Return(None)),
    ];
    let m = immediate_postdom(
        &cfg,
        &results,
        &set(&[0, 1, 2, 3]),
        0,
        &set(&[]),
        &[0, 1, 1, 1],
        &HashMap::new(),
        None,
        &set(&[3]),
        &set(&[]),
        &set(&[]),
    );
    assert_eq!(m, Some(3));
}

#[test]
fn exception_rows_are_grouped() {
    let cfg = graph(
        vec![blk(0, 0, 4, vec![1]), blk(1, 4, 4, vec![]), blk(2, 8, 2, vec![]), blk(3, 10, 2, vec![])],
        vec![row(0, 4, 8, Some("a/A")), row(0, 4, 10, None), row(4, 8, 10, Some("a/B"))],
    );
    let gs = group_exceptions(&cfg);
    let view: Vec<(u32, u32, usize)> = gs.iter().map(|g| (g.start, g.end, g.handlers.len())).collect();
    assert_eq!(view, vec![(0, 4, 2), (4, 8, 1)]);
    assert_eq!(gs[0].handlers[0], (8, Some("a/A".to_string())));
    assert_eq!(gs[0].handlers[1], (10, None));
    let adjacent = graph(
        vec![blk(0, 0, 4, vec![1]), blk(1, 4, 4, vec![]), blk(2, 8, 2, vec![])],
        vec![row(0, 4, 8, Some("a/A")), row(4, 8, 8, Some("a/A"))],
    );
    let gs = group_exceptions_with(&adjacent, None);
    let view: Vec<(u32, u32)> = gs.iter().map(|g| (g.start, g.end)).collect();
    assert_eq!(view, vec![(0, 8)]);
}

#[test]
fn constructors_index_groups() {
    let (cfg, results) = try_catch();
    let g = WalkGuards::default();
    let s = Structurer::new(&cfg, &results, &g);
    assert_eq!(s.body_group.get(&0), Some(&0));
    assert_eq!(s.body_group.get(&1), None);
    assert_eq!(s.handler_group.get(&2), Some(&0));
    let groups = group_exceptions(&cfg);
    let shared = Structurer::with_shared_groups(&cfg, &results, &groups, set(&[]), HashMap::new(), &g);
    assert_eq!(shared.handler_group.get(&2), Some(&0));
    let mut owned = Structurer::with_precomputed_groups(&cfg, &results, Vec::new(), set(&[]), HashMap::new(), &g);
    assert!(owned.handler_group.is_empty());
    assert_eq!(shape(&owned.structure_method()), "[B0 B1]");
}

#[test]
fn sides_and_exits() {
    let cfg = diamond();
    let results = vec![
        res(vec![], cond()),
        res(vec![], Term::Goto),
        res(vec![], Term::Fallthrough),
        res(work(3), Term::Return(None)),
    ];
    let s = Structurer::new(&cfg, &results, &WalkGuards::default());
    let all = set(&[0, 1, 2, 3]);
    let mut seen = set(&[]);
    assert!(s.branches_are_diamond(1, 2, 3, &all, &set(&[]), &set(&[]), &mut seen));
    assert_eq!(seen, set(&[1, 2]));
    let mut seen = set(&[]);
    assert!(!s.branches_are_diamond(1, 2, 3, &all, &set(&[2]), &set(&[]), &mut seen));
    assert!(s.exit_has_content(1, &set(&[])));
    assert!(!s.exit_has_content(1, &set(&[3])));
    assert!(s.exit_has_content(0, &set(&[])));
}

#[test]
fn value_push_behind_statements_stays_a_branch() {
    let cfg = graph(
        vec![
            blk(0, 0, 2, vec![1, 2]),
            blk(1, 2, 2, vec![4]),
            blk(2, 4, 2, vec![3]),
            blk(3, 6, 2, vec![4]),
            blk(4, 8, 2, vec![5]),
            blk(5, 10, 2, vec![]),
        ],
        vec![],
    );
    let mut results = vec![
        res(vec![], cond()),
        res(vec![], Term::Goto),
        res(work(2), Term::Goto),
        res(vec![], Term::Fallthrough),
        res(work(4), Term::Fallthrough),
        res(work(5), Term::Return(None)),
    ];
    results[1].out_stack.push(Arc::new(num(1)));
    results[3].out_stack.push(Arc::new(num(2)));
    assert_eq!(structured(&cfg, &results), "[if0([B2 B3 G4]|[B1 G4])>4 B4 B5]");
}

#[test]
fn do_while_loop() {
    let cfg = graph(
        vec![blk(0, 0, 2, vec![1]), blk(1, 2, 2, vec![2]), blk(2, 4, 2, vec![3, 1]), blk(3, 6, 2, vec![])],
        vec![],
    );
    let results = vec![
        res(work(0), Term::Fallthrough),
        res(work(1), Term::Fallthrough),
        res(work(2), cond()),
        res(work(3), Term::Return(None)),
    ];
    assert_eq!(structured(&cfg, &results), "[B0 loop1([B1 if2(G1|B3)>-])[1, 2, 3]>[]]");
}

#[test]
fn self_loop() {
    let cfg = graph(vec![blk(0, 0, 2, vec![1, 0]), blk(1, 2, 2, vec![])], vec![]);
    let results = vec![res(work(0), cond()), res(vec![], Term::Return(None))];
    assert_eq!(structured(&cfg, &results), "[loop0(if0(G0|_)>-)[0]>[1] B1]");
}

#[test]
fn nested_loops() {
    let cfg = graph(
        vec![
            blk(0, 0, 2, vec![1]),
            blk(1, 2, 2, vec![6, 2]),
            blk(2, 4, 2, vec![3]),
            blk(3, 6, 2, vec![5, 4]),
            blk(4, 8, 2, vec![3]),
            blk(5, 10, 2, vec![1]),
            blk(6, 12, 2, vec![]),
        ],
        vec![],
    );
    let results = vec![
        res(work(0), Term::Fallthrough),
        res(vec![], cond()),
        res(work(2), Term::Fallthrough),
        res(vec![], cond()),
        res(work(4), Term::Goto),
        res(work(5), Term::Goto),
        res(work(6), Term::Return(None)),
    ];
    assert_eq!(structured(&cfg, &results), "[B0 loop1(if1([B2 loop3(if3([B4 G3]|G5)>-)[3, 4]>[5] B5 G1]|_)>-)[1, 2, 3, 4, 5]>[6] B6]");
}

#[test]
fn switch_inside_a_loop() {
    let cfg = graph(
        vec![
            blk(0, 0, 2, vec![1]),
            blk(1, 2, 2, vec![6, 2]),
            blk(2, 4, 2, vec![3, 4, 5]),
            blk(3, 6, 2, vec![5]),
            blk(4, 8, 2, vec![5]),
            blk(5, 10, 2, vec![1]),
            blk(6, 12, 2, vec![]),
        ],
        vec![],
    );
    let results = vec![
        res(work(0), Term::Fallthrough),
        res(vec![], cond()),
        res(
            vec![],
            Term::Switch {
                selector: Arc::new(local(0)),
                targets: SwitchTargets::Table { low: 5, targets: vec![6, 8, 10] },
                default: Some(10),
            },
        ),
        res(work(3), Term::Goto),
        res(work(4), Term::Fallthrough),
        res(work(5), Term::Goto),
        res(work(6), Term::Return(None)),
    ];
    assert_eq!(structured(&cfg, &results), "[B0 loop1(if1([switch2([5]:[B3 G5] [6]:[B4 G5] [7]:G5 default:-)>5 B5 G1]|_)>-)[1, 2, 3, 4, 5]>[6] B6]");
}

#[test]
fn tail_behind_branches_is_walked_once() {
    let cfg = graph(
        vec![
            blk(0, 0, 2, vec![1, 2]),
            blk(1, 2, 2, vec![3, 4]),
            blk(2, 4, 2, vec![5]),
            blk(3, 6, 2, vec![]),
            blk(4, 8, 2, vec![5]),
            blk(5, 10, 2, vec![6]),
            blk(6, 12, 2, vec![]),
        ],
        vec![],
    );
    let results = vec![
        res(vec![], cond()),
        res(vec![], cond()),
        res(work(2), Term::Goto),
        res(work(3), Term::Return(None)),
        res(work(4), Term::Fallthrough),
        res(work(5), Term::Fallthrough),
        res(work(6), Term::Return(None)),
    ];
    assert_eq!(structured(&cfg, &results), "[if0([B2 G5]|if1(B4|B3)>5)>5 B5 B6]");
}

#[test]
fn tail_behind_nested_try_is_copied() {
    let cfg = graph(
        vec![
            blk(0, 0, 2, vec![1]),
            blk(1, 2, 2, vec![2]),
            blk(2, 4, 2, vec![5]),
            blk(3, 6, 2, vec![2]),
            blk(4, 8, 2, vec![2]),
            blk(5, 10, 2, vec![]),
        ],
        vec![row(2, 4, 6, Some("a/Inner")), row(0, 4, 8, Some("a/Outer"))],
    );
    let results = vec![
        res(work(0), Term::Fallthrough),
        res(work(1), Term::Goto),
        res(work(2), Term::Fallthrough),
        res(work(3), Term::Goto),
        res(work(4), Term::Goto),
        res(work(5), Term::Return(None)),
    ];
    let mut s = Structurer::new(&cfg, &results, &WalkGuards::default());
    assert_eq!(shape(&s.structure_method()), "try0([B0 try1([B1 [B2 B5]] catch a/Inner@3:[B3 B2 B5])] catch a/Outer@4:[B4 [B2 B5]])");
    assert!(s.copied_tails.contains(&2));
    assert!(s.copy_budget < 512);
    let mut g = WalkGuards::default();
    set_budget_override(&mut g, Some(0));
    let mut s = Structurer::new(&cfg, &results, &g);
    assert_eq!(shape(&s.structure_method()), "try0([B0 try1([B1 G2] catch a/Inner@3:[B3 B2 B5])] catch a/Outer@4:[B4])");
    assert_eq!(s.copy_budget, 0);
}

#[test]
fn final_field_write_is_not_copied() {
    let cfg = diamond();
    let write = Stmt::ExprStmt(Expr::Assign {
        target: Box::new(Expr::Field {
            owner: Some(Box::new(Expr::This)),
            cls: "a/B".to_string(),
            name: "x".to_string(),
            ty: TypeRef::J(JavaType::Int),
        }),
        op: AssignOp::Plain,
        value: Box::new(num(1)),
    });
    let results = vec![
        res(vec![], cond()),
        res(work(1), Term::Goto),
        res(work(2), Term::Fallthrough),
        res(vec![write], Term::Return(None)),
    ];
    let mut s = Structurer::new(&cfg, &results, &WalkGuards::default());
    assert_eq!(shape(&s.structure_method()), "if0([B2 B3]|[B1 C3])>-");
    let mut s = Structurer::new(&cfg, &results, &WalkGuards::default());
    s.final_fields.push("x".to_string());
    assert_eq!(shape(&s.structure_method()), "[if0(B2|[B1 G3])>3 B3]");
}

#[test]
fn catch_inside_a_loop() {
    let cfg = graph(
        vec![
            blk(0, 0, 2, vec![1]),
            blk(1, 2, 2, vec![4, 2]),
            blk(2, 4, 2, vec![1]),
            blk(3, 6, 2, vec![1]),
            blk(4, 8, 2, vec![]),
        ],
        vec![row(4, 6, 6, None)],
    );
    let results = vec![
        res(work(0), Term::Fallthrough),
        res(vec![], cond()),
        res(work(2), Term::Goto),
        res(work(3), Term::Goto),
        res(work(4), Term::Return(None)),
    ];
    assert_eq!(structured(&cfg, &results), "[B0 loop1(if1(try0([B2 G1] catch @3:[B3 G1])|_)>-)[1, 2]>[4] B4]");
}

/// Every block the region names is one of `n`, every group one of `g`.
fn names_only(r: &Region, n: usize, g: usize) -> bool {
    match r {
        Region::Basic { block } => *block < n,
        Region::Sequence(v) => v.iter().all(|x| names_only(x, n, g)),
        Region::If { block, then_r, else_r, follow, .. } => {
            *block < n && names_only(then_r, n, g) && names_only(else_r, n, g) && follow.map_or(true, |f| f < n)
        }
        Region::Loop { header, body, members, exits } => {
            *header < n && names_only(body, n, g) && members.iter().all(|m| *m < n) && exits.iter().all(|e| *e < n)
        }
        Region::Switch { block, cases, default, follow, .. } => {
            *block < n
                && cases.iter().all(|c| names_only(&c.1, n, g))
                && default.as_ref().map_or(true, |d| names_only(d, n, g))
                && follow.map_or(true, |f| f < n)
        }
        Region::Try { group_idx, body, catches } => {
            *group_idx < g && names_only(body, n, g) && catches.iter().all(|c| c.1 < n && names_only(&c.2, n, g))
        }
        Region::Goto { target } => *target < n,
        Region::CopyStmts { block } => *block < n,
        Region::Empty => true,
    }
}

#[test]
fn regions_name_only_what_the_method_has() {
    for (cfg, results) in [counted_loop(), table_switch(), try_catch()] {
        for visits in [None, Some(0), Some(1), Some(2), Some(3)] {
            let mut g = WalkGuards::default();
            set_walk_visit_budget(&mut g, visits);
            let mut s = Structurer::new(&cfg, &results, &g);
            let groups = s.groups.len();
            let r = s.structure_method();
            assert!(names_only(&r, cfg.blocks.len(), groups));
            assert!(!names_only(&r, 0, 0));
        }
    }
}

#[test]
fn entry_without_code_makes_nothing() {
    let cfg = graph(vec![blk(0, 0, 0, vec![1]), blk(1, 0, 2, vec![])], vec![]);
    let results = vec![res(vec![], Term::Fallthrough), res(work(1), Term::Return(None))];
    let mut g = WalkGuards::default();
    set_walk_visit_budget(&mut g, Some(5));
    let mut s = Structurer::new(&cfg, &results, &g);
    assert_eq!(shape(&s.structure_method()), "_");
    assert_eq!(s.visits_left, 4);
}

#[test]
fn loop_exits_stand_by_their_start() {
    // The exit that starts first has the higher id.
    let cfg = graph(
        vec![
            blk(0, 0, 2, vec![1]),
            blk(1, 2, 2, vec![2, 3, 4]),
            blk(2, 4, 2, vec![1]),
            blk(3, 12, 2, vec![]),
            blk(4, 8, 2, vec![]),
        ],
        vec![],
    );
    let results = vec![
        res(work(0), Term::Fallthrough),
        res(
            vec![],
            Term::Switch {
                selector: Arc::new(local(0)),
                targets: SwitchTargets::Table { low: 0, targets: vec![4, 12] },
                default: Some(8),
            },
        ),
        res(work(2), Term::Goto),
        res(work(3), Term::Return(None)),
        res(work(4), Term::Return(None)),
    ];
    let mut s = Structurer::new(&cfg, &results, &WalkGuards::default());
    let r = s.structure_method();
    match &r {
        Region::Sequence(v) => match &v[1] {
            Region::Loop { header, members, exits, .. } => {
                assert_eq!(*header, 1);
                assert_eq!(*members, set(&[1, 2]));
                assert_eq!(*exits, vec![4, 3]);
            }
            other => panic!("no loop: {}", shape(other)),
        },
        other => panic!("no sequence: {}", shape(other)),
    }
}

#[test]
fn early_return_stays_in_its_loop() {
    let cfg = graph(
        vec![
            blk(0, 0, 2, vec![1]),
            blk(1, 2, 2, vec![4, 2]),
            blk(2, 4, 2, vec![3, 5]),
            blk(3, 6, 2, vec![1]),
            blk(4, 12, 2, vec![]),
            blk(5, 8, 2, vec![]),
        ],
        vec![],
    );
    let results = vec![
        res(work(0), Term::Fallthrough),
        res(vec![], cond()),
        res(vec![], cond()),
        res(work(3), Term::Goto),
        res(work(4), Term::Return(None)),
        res(work(5), Term::Return(None)),
    ];
    assert_eq!(structured(&cfg, &results), "[B0 loop1(if1(if2(B5|[B3 G1])>-|_)>-)[1, 2, 3, 5]>[4] B4]");
}

#[test]
fn grouping_loses_no_row() {
    let blocks = || {
        vec![
            blk(0, 0, 4, vec![4]),
            blk(1, 4, 2, vec![4]),
            blk(2, 6, 2, vec![4]),
            blk(3, 8, 2, vec![4]),
            blk(4, 10, 2, vec![]),
        ]
    };
    let tables = [
        vec![row(0, 4, 4, Some("a/E")), row(0, 4, 6, None)],
        vec![row(0, 2, 6, None), row(2, 4, 6, None)],
        // The handler at 4 is protected by one of the span's own handlers.
        vec![row(0, 4, 4, Some("a/E")), row(0, 4, 8, Some("a/F")), row(4, 6, 8, Some("a/F"))],
    ];
    for rows in tables {
        let cfg = graph(blocks(), rows);
        let groups = group_exceptions(&cfg);
        for (i, r) in cfg.exc_ranges.iter().enumerate() {
            assert!(groups.iter().any(|g| {
                g.start <= r.start
                    && r.end <= g.end
                    && g.ranges.contains(&i)
                    && g.handlers.contains(&(r.handler, r.catch_type.clone()))
            }));
        }
    }
}

#[test]
fn protected_handler_code_makes_an_outer_group() {
    let cfg = graph(
        vec![
            blk(0, 0, 4, vec![4]),
            blk(1, 4, 2, vec![4]),
            blk(2, 6, 2, vec![4]),
            blk(3, 8, 2, vec![4]),
            blk(4, 10, 2, vec![]),
        ],
        vec![row(0, 4, 4, Some("a/E")), row(0, 4, 8, Some("a/F")), row(4, 6, 8, Some("a/F"))],
    );
    let groups = group_exceptions(&cfg);
    assert_eq!(groups.len(), 2);
    assert_eq!((groups[0].start, groups[0].end), (0, 6));
    assert_eq!(groups[0].handlers, vec![(8, Some("a/F".to_string()))]);
    assert_eq!(groups[0].ranges, vec![2, 1]);
    assert_eq!((groups[1].start, groups[1].end), (0, 4));
    assert_eq!(groups[1].handlers, vec![(4, Some("a/E".to_string()))]);
    assert_eq!(groups[1].ranges, vec![0]);
}
