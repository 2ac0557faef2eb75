//! The statement and expression trees a front-end builds per basic block, and
//! how each block ends.

use std::sync::Arc;

use vstd::prelude::*;

use crate::types::{GenericType, JavaType, MethodDescriptor};

verus! {

/// A type reference: an erased JVM type or a generic one.
#[derive(Debug, PartialEq)]
pub enum TypeRef {
    J(JavaType),
    G(GenericType),
}

#[derive(Debug, PartialEq)]
pub enum ConstVal {
    Null,
    Int(i32),
    Long(i64),
    Str(String),
    Class(String),
}

#[derive(Debug, Clone, Copy, PartialEq, Eq)]
pub enum BinOp {
    Add,
    Sub,
    Mul,
    Div,
    Rem,
    Shl,
    Shr,
    UShr,
    And,
    Or,
    Xor,
    Lt,
    Le,
    Gt,
    Ge,
    Eq,
    Ne,
    LAnd,
    LOr,
}

#[derive(Debug, Clone, Copy, PartialEq, Eq)]
pub enum UnOp {
    Neg,
    Not,
    BitNot,
}

#[derive(Debug, Clone, Copy, PartialEq, Eq)]
pub enum AssignOp {
    Plain,
    Compound(BinOp),
}

#[derive(Debug, PartialEq)]
pub enum ConcatPart {
    Lit(String),
    Str(Expr),
}

#[derive(Debug, PartialEq)]
pub struct Lambda {
    pub name: String,
    pub captures: Vec<Expr>,
}

#[allow(inconsistent_fields)]
#[derive(Debug, PartialEq)]
pub enum Expr {
    Const(ConstVal),
    Local { var: u32, ty: TypeRef },
    This,
    Method {
        owner: Option<Box<Expr>>,
        cls: String,
        name: String,
        desc: MethodDescriptor,
        args: Vec<Expr>,
        is_static: bool,
        is_interface: bool,
        is_special: bool,
        is_super: bool,
        is_dynamic: bool,
        type_args: Vec<GenericType>,
    },
    Field { owner: Option<Box<Expr>>, cls: String, name: String, ty: TypeRef },
    Bin { op: BinOp, l: Box<Expr>, r: Box<Expr>, ty: Option<TypeRef> },
    Un { op: UnOp, e: Box<Expr> },
    Cast { ty: TypeRef, e: Box<Expr> },
    InstanceOf { e: Box<Expr>, ty: TypeRef },
    PreIncDec { e: Box<Expr>, inc: bool },
    PostIncDec { e: Box<Expr>, inc: bool },
    Assign { target: Box<Expr>, op: AssignOp, value: Box<Expr> },
    Cond { c: Box<Expr>, t: Box<Expr>, f: Box<Expr> },
    ArrayIndex { array: Box<Expr>, index: Box<Expr> },
    New { cls: String, args: Vec<Expr> },
    AnonNew { cls: String, args: Vec<Expr> },
    NewArray { elem: TypeRef, dims: Vec<Expr>, init: Option<Vec<Expr>> },
    StringConcat(Vec<ConcatPart>),
    Invokedynamic { name: String, args: Vec<Expr> },
    Lambda(Lambda),
}

#[derive(Debug, PartialEq)]
pub struct SwitchCase {
    pub labels: Vec<String>,
    pub body: Vec<Stmt>,
}

#[derive(Debug, PartialEq)]
pub struct Catch {
    pub exc: Vec<String>,
    pub var: u32,
    pub var_name: Option<String>,
    pub body: Box<Stmt>,
}

#[allow(inconsistent_fields)]
#[derive(Debug, PartialEq)]
pub enum Stmt {
    Block(Vec<Stmt>),
    ExprStmt(Expr),
    LocalDef { var: u32, init: Option<Expr>, is_final: bool, force_type: bool },
    Return(Option<Expr>),
    Throw(Expr),
    If { cond: Expr, then_stmt: Box<Stmt>, else_stmt: Option<Box<Stmt>> },
    While { cond: Expr, body: Box<Stmt> },
    DoWhile { body: Box<Stmt>, cond: Expr },
    For { init: Vec<Stmt>, cond: Option<Expr>, update: Vec<Expr>, body: Box<Stmt> },
    ForEach { var: u32, iterable: Expr, body: Box<Stmt> },
    Switch { selector: Expr, cases: Vec<SwitchCase>, default: Option<Box<Stmt>> },
    Try { body: Box<Stmt>, catches: Vec<Catch>, finally: Option<Box<Stmt>> },
    TryWithResources {
        resources: Vec<Stmt>,
        body: Box<Stmt>,
        catches: Vec<Catch>,
        finally: Option<Box<Stmt>>,
    },
    Synchronized { lock: Expr, body: Box<Stmt> },
    Labeled { label: String, body: Box<Stmt> },
    Assert { cond: Expr, msg: Option<Expr> },
    Break(Option<String>),
    Continue(Option<String>),
    MonitorEnter(Expr),
    MonitorExit(Expr),
    Comment(String),
}

/// The case table of a switch terminal; targets are code offsets.
#[derive(Debug, PartialEq)]
pub enum SwitchTargets {
    /// `low`, `low + 1`, ... in order.
    Table { low: i32, targets: Vec<u32> },
    /// Explicit (match value, target) pairs.
    Lookup { pairs: Vec<(i32, u32)> },
}

/// How a block ends.
#[derive(Debug, PartialEq)]
pub enum Term {
    Fallthrough,
    Goto,
    /// Two-way branch: successor 0 is the fallthrough, successor 1 the taken side.
    Cond { cond: Arc<Expr> },
    Switch { selector: Arc<Expr>, targets: SwitchTargets, default: Option<u32> },
    Return(Option<Expr>),
    Throw(Expr),
    Ret,
    Jsr,
}

/// What one basic block produced: its statements, the values it leaves on the
/// operand stack, and its terminal.
#[derive(Debug, PartialEq)]
pub struct BlockResult {
    pub stmts: Vec<Stmt>,
    pub out_stack: Vec<Arc<Expr>>,
    pub term: Term,
}

impl Term {
    /// A return or throw: no flow leaves the block.
    pub open spec fn abrupt(self) -> bool {
        self is Return || self is Throw
    }

    /// An unconditional pass to the next block.
    pub open spec fn plain(self) -> bool {
        self is Fallthrough || self is Goto
    }

    pub fn is_abrupt(&self) -> (r: bool)
        ensures
            r == self.abrupt(),
    {
        match self {
            Term::Return(_) => true,
            Term::Throw(_) => true,
            _ => false,
        }
    }

    pub fn is_plain(&self) -> (r: bool)
        ensures
            r == self.plain(),
    {
        match self {
            Term::Fallthrough => true,
            Term::Goto => true,
            _ => false,
        }
    }
}

/// Another handle on a shared value. `Arc::clone` makes a second pointer to
/// the same allocation, so the value behind the new handle is the value behind
/// the old one.
#[verifier::external_body]
pub(crate) fn share<T>(a: &Arc<T>) -> (r: Arc<T>)
    ensures
        *r == **a,
{
    Arc::clone(a)
}

} // verus!
