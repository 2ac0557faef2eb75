//! A complete front-end of a register machine: it hand-builds a graph and the
//! block results, runs the structurer, and prints the region tree.

use std::sync::Arc;

use jdc_core::cfg::{Block, Cfg, ExcEdge, ExcRange};
use jdc_core::ir::{AssignOp, BinOp, BlockResult, ConstVal, Expr, Stmt, SwitchTargets, Term, TypeRef};
use jdc_core::structure::{Region, Structurer, WalkGuards};
use jdc_core::types::{parse_method_descriptor, JavaType};
use jdc_core::var::VarTable;

fn blk(id: usize, start: u32, len: u32, succ: Vec<usize>) -> Block {
    Block { id, start, end: start + len, ins_len: len, succ, pred: Vec::new(), handlers: Vec::new() }
}

/// The graph of the blocks: predecessors and exception edges are derived.
fn from_blocks(mut blocks: Vec<Block>, entry: usize, exc_ranges: Vec<ExcRange>) -> Cfg {
    for b in 0..blocks.len() {
        for t in blocks[b].succ.clone() {
            blocks[t].pred.push(b);
        }
    }
    let mut exc_edges = Vec::new();
    for r in &exc_ranges {
        let to = blocks.iter().position(|b| b.start == r.handler).unwrap();
        for b in blocks.iter().filter(|b| b.start >= r.start && b.start < r.end) {
            exc_edges.push(ExcEdge { from: b.id, to });
        }
    }
    Cfg { blocks, entry, exc_ranges, exc_edges }
}

fn res(stmts: Vec<Stmt>, term: Term) -> BlockResult {
    BlockResult { stmts, out_stack: Vec::new(), term }
}

/// Adds locals to a fresh table.
fn vt_with(params: &[(&str, JavaType)]) -> VarTable {
    let mut vt = VarTable::default();
    for (i, (name, ty)) in params.iter().enumerate() {
        let id = vt.add_split(i as u16, name.to_string(), TypeRef::J(ty.clone()));
        assert_eq!(id, i as u32);
    }
    vt
}

fn local(vt: &VarTable, name: &str) -> Expr {
    let v = vt.vars.iter().find(|v| v.name == name).expect("var");
    Expr::Local { var: v.id, ty: v.ty.clone() }
}

fn num(i: i32) -> Expr {
    Expr::Const(ConstVal::Int(i))
}

fn bin(op: BinOp, l: Expr, r: Expr) -> Expr {
    Expr::Bin { op, l: Box::new(l), r: Box::new(r), ty: Some(TypeRef::J(JavaType::Int)) }
}

fn assign(target: Expr, value: Expr) -> Stmt {
    Stmt::ExprStmt(Expr::Assign { target: Box::new(target), op: AssignOp::Plain, value: Box::new(value) })
}

fn p_expr(e: &Expr, vt: &VarTable) -> String {
    match e {
        Expr::Const(ConstVal::Int(i)) => i.to_string(),
        Expr::Local { var, .. } => vt.var(*var).name.clone(),
        Expr::Bin { op, l, r, .. } => {
            let o = match op {
                BinOp::Lt => "<",
                BinOp::Add => "+",
                BinOp::Eq => "==",
                _ => "?",
            };
            format!("{} {} {}", p_expr(l, vt), o, p_expr(r, vt))
        }
        Expr::Assign { target, value, .. } => format!("{} = {}", p_expr(target, vt), p_expr(value, vt)),
        Expr::Method { cls, name, args, .. } => {
            let list: Vec<String> = args.iter().map(|a| p_expr(a, vt)).collect();
            format!("{}.{}({})", cls, name, list.join(", "))
        }
        _ => "<expr>".to_string(),
    }
}

fn p_stmt(s: &Stmt, vt: &VarTable) -> String {
    match s {
        Stmt::ExprStmt(e) => format!("{};\n", p_expr(e, vt)),
        Stmt::Return(Some(e)) => format!("return {};\n", p_expr(e, vt)),
        Stmt::LocalDef { .. } => String::new(),
        _ => "<stmt>\n".to_string(),
    }
}

struct Method<'a> {
    results: &'a Vec<BlockResult>,
    vt: &'a VarTable,
}

impl<'a> Method<'a> {
    fn block(&self, b: usize) -> String {
        let mut out = String::new();
        for s in &self.results[b].stmts {
            out.push_str(&p_stmt(s, self.vt));
        }
        if let Term::Throw(e) = &self.results[b].term {
            out.push_str(&format!("throw {};\n", p_expr(e, self.vt)));
        }
        out
    }

    /// The name that the handler binds at its start.
    fn caught(&self, b: usize) -> String {
        match self.results[b].stmts.first() {
            Some(Stmt::LocalDef { var, .. }) => self.vt.var(*var).name.clone(),
            _ => panic!("no binding at {}", b),
        }
    }

    fn print(&self, r: &Region) -> String {
        match r {
            Region::Basic { block } => self.block(*block),
            Region::CopyStmts { block } => self.block(*block),
            Region::Sequence(v) => v.iter().map(|x| self.print(x)).collect(),
            Region::If { block, cond, then_r, else_r, .. } => {
                let mut out: String = self.results[*block].stmts.iter().map(|s| p_stmt(s, self.vt)).collect();
                out.push_str(&format!("if ({}) {{\n{}}}", p_expr(cond, self.vt), self.print(then_r)));
                out.push_str(&format!(" else {{\n{}}}\n", self.print(else_r)));
                out
            }
            Region::Loop { body, .. } => format!("while (true) {{\n{}}}\n", self.print(body)),
            Region::Switch { selector, cases, default, .. } => {
                let mut out = format!("switch ({}) {{\n", p_expr(selector, self.vt));
                for (vals, x) in cases {
                    for v in vals {
                        out.push_str(&format!("case {}:\n", v));
                    }
                    out.push_str(&self.print(x));
                }
                if let Some(d) = default {
                    out.push_str(&format!("default:\n{}", self.print(d)));
                }
                out.push_str("}\n");
                out
            }
            Region::Try { body, catches, .. } => {
                let mut out = format!("try {{\n{}", self.print(body));
                for (types, b, x) in catches {
                    out.push_str(&format!("}} catch ({} {}) {{\n{}", types.join(" | "), self.caught(*b), self.print(x)));
                }
                out.push_str("}\n");
                out
            }
            Region::Goto { target } => format!("goto {};\n", target),
            Region::Empty => String::new(),
        }
    }
}

fn structuralize(cfg: &Cfg, results: &Vec<BlockResult>, vt: &VarTable) -> String {
    let region = Structurer::new(cfg, results, &WalkGuards::default()).structure_method();
    Method { results, vt }.print(&region)
}

/// r = 0;
/// while (i < n) { if (i == 5) { r = r + 100; } else { r = r + i; } i = i + 1; }
/// return r;
#[test]
fn register_machine_loop_with_if_else() {
    let vt = vt_with(&[("i", JavaType::Int), ("n", JavaType::Int), ("r", JavaType::Int)]);
    let cfg = from_blocks(
        vec![
            blk(0, 0, 2, vec![1]),
            blk(1, 2, 2, vec![6, 2]),
            blk(2, 4, 2, vec![4, 3]),
            blk(3, 6, 2, vec![5]),
            blk(4, 8, 2, vec![5]),
            blk(5, 10, 2, vec![1]),
            blk(6, 12, 2, vec![]),
        ],
        0,
        vec![],
    );
    let cond_loop = bin(BinOp::Lt, local(&vt, "i"), local(&vt, "n"));
    let cond_if = bin(BinOp::Eq, local(&vt, "i"), num(5));
    let results = vec![
        res(vec![assign(local(&vt, "i"), num(0))], Term::Goto),
        res(vec![], Term::Cond { cond: Arc::new(cond_loop) }),
        res(vec![], Term::Cond { cond: Arc::new(cond_if) }),
        res(vec![assign(local(&vt, "r"), bin(BinOp::Add, local(&vt, "r"), num(100)))], Term::Goto),
        res(vec![assign(local(&vt, "r"), bin(BinOp::Add, local(&vt, "r"), local(&vt, "i")))], Term::Goto),
        res(vec![assign(local(&vt, "i"), bin(BinOp::Add, local(&vt, "i"), num(1)))], Term::Goto),
        res(vec![Stmt::Return(Some(local(&vt, "r")))], Term::Return(None)),
    ];
    let text = structuralize(&cfg, &results, &vt);
    assert!(
        text.contains("while (") || text.contains("do {") || text.contains("for ("),
        "no loop in:\n{}",
        text
    );
    assert!(text.contains("return r;"), "no return in:\n{}", text);
    let both_arms = (text.contains("r = r + 100;") && text.contains("r = r + i;")) || text.contains("if (");
    assert!(both_arms, "conditional arms missing in:\n{}", text);
    assert!(text.contains("i = i + 1;"), "increment missing in:\n{}", text);
    let mut s = Structurer::new(&cfg, &results, &WalkGuards::default());
    match s.structure_method() {
        Region::Sequence(v) => {
            assert!(matches!(v[0], Region::Basic { block: 0 }));
            assert!(matches!(v[1], Region::Loop { header: 1, .. }));
            assert!(matches!(v[2], Region::Basic { block: 6 }));
            assert_eq!(v.len(), 3);
        }
        _ => panic!("no sequence"),
    }
}

/// switch (n) { case 0: r = 10; break; case 1: r = 20; break; default: r = 30; }
#[test]
fn register_machine_switch_with_default() {
    let vt = vt_with(&[("n", JavaType::Int), ("r", JavaType::Int)]);
    let cfg = from_blocks(
        vec![
            blk(0, 0, 2, vec![1]),
            blk(1, 2, 2, vec![2, 3, 4]),
            blk(2, 4, 2, vec![5]),
            blk(3, 6, 2, vec![5]),
            blk(4, 8, 2, vec![5]),
            blk(5, 10, 2, vec![]),
        ],
        0,
        vec![],
    );
    let results = vec![
        res(vec![], Term::Fallthrough),
        res(
            vec![],
            Term::Switch {
                selector: Arc::new(local(&vt, "n")),
                targets: SwitchTargets::Table { low: 0, targets: vec![4, 6] },
                default: Some(8),
            },
        ),
        res(vec![assign(local(&vt, "r"), num(10))], Term::Goto),
        res(vec![assign(local(&vt, "r"), num(20))], Term::Goto),
        res(vec![assign(local(&vt, "r"), num(30))], Term::Goto),
        res(vec![Stmt::Return(Some(local(&vt, "r")))], Term::Return(None)),
    ];
    let text = structuralize(&cfg, &results, &vt);
    assert!(text.contains("switch ("), "no switch in:\n{}", text);
    assert!(text.contains("10") && text.contains("20") && text.contains("30"), "arms missing:\n{}", text);
    let mut s = Structurer::new(&cfg, &results, &WalkGuards::default());
    match s.structure_method() {
        Region::Sequence(v) => match &v[1] {
            Region::Switch { block, cases, default, follow, .. } => {
                assert_eq!(*block, 1);
                assert_eq!(*follow, Some(5));
                assert_eq!(cases[0].0, vec![0]);
                assert_eq!(cases[1].0, vec![1]);
                assert_eq!(cases.len(), 2);
                assert!(default.is_some());
            }
            _ => panic!("no switch"),
        },
        _ => panic!("no sequence"),
    }
}

/// A protected range with a typed handler.
#[test]
fn register_machine_try_catch() {
    let mut vt = vt_with(&[("n", JavaType::Int)]);
    let cfg = from_blocks(
        vec![blk(0, 0, 4, vec![1]), blk(1, 4, 2, vec![]), blk(2, 6, 2, vec![])],
        0,
        vec![ExcRange {
            start: 0,
            end: 4,
            handler: 6,
            catch_type: Some("java/lang/IllegalStateException".to_string()),
        }],
    );
    let handler_var = vt.add_split(
        9,
        "e".to_string(),
        TypeRef::J(JavaType::Object("java/lang/IllegalStateException".to_string())),
    );
    assert_eq!(handler_var, 1);
    let results = vec![
        res(
            vec![Stmt::ExprStmt(Expr::Method {
                owner: None,
                cls: "java/lang/Math".to_string(),
                name: "abs".to_string(),
                desc: parse_method_descriptor("(I)I").unwrap(),
                args: vec![local(&vt, "n")],
                is_static: true,
                is_interface: false,
                is_special: false,
                is_super: false,
                is_dynamic: false,
                type_args: vec![],
            })],
            Term::Fallthrough,
        ),
        res(vec![], Term::Return(None)),
        res(
            vec![Stmt::LocalDef { var: handler_var, init: None, is_final: false, force_type: true }],
            Term::Throw(local(&vt, "e")),
        ),
    ];
    let text = structuralize(&cfg, &results, &vt);
    assert!(text.contains("try {"), "no try in:\n{}", text);
    assert!(
        text.contains("catch (java/lang/IllegalStateException e") || text.contains("catch (e"),
        "no typed catch parameter in:\n{}",
        text
    );
    assert!(text.contains("throw e;"), "handler body lost:\n{}", text);
    assert!(text.contains("java/lang/Math.abs(n);"));
}
