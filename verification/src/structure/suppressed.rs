//! Detection of `Throwable.addSuppressed` calls, the fingerprint of
//! try-with-resources close scaffolding.

use vstd::prelude::*;

use crate::ir::{Catch, ConcatPart, Expr, Stmt, SwitchCase};
use crate::text::is_text;

verus! {

/// The expression, or one inside it, calls a method named `addSuppressed`.
pub open spec fn expr_suppresses(e: Expr) -> bool
    decreases e,
{
    match e {
        Expr::Method { owner, name, args, .. } => {
            ||| name@ == "addSuppressed"@
            ||| (owner matches Some(o) && expr_suppresses(*o))
            ||| exists|i: int| 0 <= i < args@.len() && expr_suppresses(#[trigger] args@[i])
        },
        Expr::Field { owner: Some(o), .. } => expr_suppresses(*o),
        Expr::Bin { l, r, .. } => expr_suppresses(*l) || expr_suppresses(*r),
        Expr::Assign { target, value, .. } => expr_suppresses(*target) || expr_suppresses(*value),
        Expr::Cond { c, t, f } => expr_suppresses(*c) || expr_suppresses(*t) || expr_suppresses(*f),
        Expr::Un { e: x, .. } => expr_suppresses(*x),
        Expr::Cast { e: x, .. } => expr_suppresses(*x),
        Expr::InstanceOf { e: x, .. } => expr_suppresses(*x),
        Expr::PreIncDec { e: x, .. } => expr_suppresses(*x),
        Expr::PostIncDec { e: x, .. } => expr_suppresses(*x),
        Expr::ArrayIndex { array, index } => expr_suppresses(*array) || expr_suppresses(*index),
        Expr::New { args, .. } => exists|i: int|
            0 <= i < args@.len() && expr_suppresses(#[trigger] args@[i]),
        Expr::AnonNew { args, .. } => exists|i: int|
            0 <= i < args@.len() && expr_suppresses(#[trigger] args@[i]),
        Expr::NewArray { dims, init, .. } => {
            ||| exists|i: int| 0 <= i < dims@.len() && expr_suppresses(#[trigger] dims@[i])
            ||| (init matches Some(v) && exists|i: int|
                0 <= i < v@.len() && expr_suppresses(#[trigger] v@[i]))
        },
        Expr::StringConcat(parts) => exists|i: int|
            0 <= i < parts@.len() && (#[trigger] parts@[i] matches ConcatPart::Str(x) && expr_suppresses(x)),
        Expr::Invokedynamic { args, .. } => exists|i: int|
            0 <= i < args@.len() && expr_suppresses(#[trigger] args@[i]),
        Expr::Lambda(l) => exists|i: int|
            0 <= i < l.captures@.len() && expr_suppresses(#[trigger] l.captures@[i]),
        _ => false,
    }
}

pub open spec fn any_expr(v: Seq<Expr>) -> bool {
    exists|i: int| 0 <= i < v.len() && expr_suppresses(#[trigger] v[i])
}

pub open spec fn opt_expr(e: Option<Expr>) -> bool {
    e matches Some(x) && expr_suppresses(x)
}

/// The statement, or one inside it, holds such a call.
pub open spec fn stmt_suppresses(s: Stmt) -> bool
    decreases s,
{
    match s {
        Stmt::Block(v) => exists|i: int| 0 <= i < v@.len() && stmt_suppresses(#[trigger] v@[i]),
        Stmt::ExprStmt(e) => expr_suppresses(e),
        Stmt::LocalDef { init, .. } => opt_expr(init),
        Stmt::Return(e) => opt_expr(e),
        Stmt::Throw(e) => expr_suppresses(e),
        Stmt::If { cond, then_stmt, else_stmt } => {
            ||| expr_suppresses(cond)
            ||| stmt_suppresses(*then_stmt)
            ||| (else_stmt matches Some(x) && stmt_suppresses(*x))
        },
        Stmt::While { cond, body } => expr_suppresses(cond) || stmt_suppresses(*body),
        Stmt::DoWhile { body, cond } => expr_suppresses(cond) || stmt_suppresses(*body),
        Stmt::For { init, cond, update, body } => {
            ||| exists|i: int| 0 <= i < init@.len() && stmt_suppresses(#[trigger] init@[i])
            ||| opt_expr(cond)
            ||| any_expr(update@)
            ||| stmt_suppresses(*body)
        },
        Stmt::ForEach { iterable, body, .. } => expr_suppresses(iterable) || stmt_suppresses(*body),
        Stmt::Switch { selector, cases, default } => {
            ||| expr_suppresses(selector)
            ||| exists|i: int, j: int|
                0 <= i < cases@.len() && 0 <= j < cases@[i].body@.len() && stmt_suppresses(
                    #[trigger] cases@[i].body@[j],
                )
            ||| (default matches Some(x) && stmt_suppresses(*x))
        },
        Stmt::Try { body, catches, finally } => {
            ||| stmt_suppresses(*body)
            ||| exists|i: int| 0 <= i < catches@.len() && stmt_suppresses(*(#[trigger] catches@[i]).body)
            ||| (finally matches Some(x) && stmt_suppresses(*x))
        },
        Stmt::TryWithResources { body, catches, finally, .. } => {
            ||| stmt_suppresses(*body)
            ||| exists|i: int| 0 <= i < catches@.len() && stmt_suppresses(*(#[trigger] catches@[i]).body)
            ||| (finally matches Some(x) && stmt_suppresses(*x))
        },
        Stmt::Synchronized { lock, body } => expr_suppresses(lock) || stmt_suppresses(*body),
        Stmt::Labeled { body, .. } => stmt_suppresses(*body),
        Stmt::Assert { cond, msg } => expr_suppresses(cond) || opt_expr(msg),
        _ => false,
    }
}

/// One of the statements holds such a call.
pub open spec fn suppresses(v: Seq<Stmt>) -> bool {
    exists|i: int| 0 <= i < v.len() && stmt_suppresses(#[trigger] v[i])
}

fn in_exprs(v: &Vec<Expr>) -> (r: bool)
    ensures
        r == any_expr(v@),
    decreases v,
{
    let mut i: usize = 0;
    while i < v.len()
        invariant
            i <= v@.len(),
            forall|j: int| 0 <= j < i ==> !expr_suppresses(#[trigger] v@[j]),
        decreases v@.len() - i,
    {
        if in_expr(&v[i]) {
            return true;
        }
        i += 1;
    }
    false
}

fn in_expr(e: &Expr) -> (r: bool)
    ensures
        r == expr_suppresses(*e),
    decreases e,
{
    match e {
        Expr::Method { owner, name, args, .. } => {
            if is_text(name, "addSuppressed") {
                return true;
            }
            if let Some(o) = owner {
                if in_expr(o) {
                    return true;
                }
            }
            in_exprs(args)
        },
        Expr::Field { owner, .. } => match owner {
            Some(o) => in_expr(o),
            None => false,
        },
        Expr::Bin { l, r, .. } => in_expr(l) || in_expr(r),
        Expr::Assign { target, value, .. } => in_expr(target) || in_expr(value),
        Expr::Cond { c, t, f } => in_expr(c) || in_expr(t) || in_expr(f),
        Expr::Un { e: x, .. } => in_expr(x),
        Expr::Cast { e: x, .. } => in_expr(x),
        Expr::InstanceOf { e: x, .. } => in_expr(x),
        Expr::PreIncDec { e: x, .. } => in_expr(x),
        Expr::PostIncDec { e: x, .. } => in_expr(x),
        Expr::ArrayIndex { array, index } => in_expr(array) || in_expr(index),
        Expr::New { args, .. } => in_exprs(args),
        Expr::AnonNew { args, .. } => in_exprs(args),
        Expr::NewArray { dims, init, .. } => {
            if in_exprs(dims) {
                return true;
            }
            match init {
                Some(v) => in_exprs(v),
                None => false,
            }
        },
        Expr::StringConcat(parts) => in_parts(parts),
        Expr::Invokedynamic { args, .. } => in_exprs(args),
        Expr::Lambda(l) => in_exprs(&l.captures),
        _ => false,
    }
}

fn in_parts(parts: &Vec<ConcatPart>) -> (r: bool)
    ensures
        r == (exists|i: int|
            0 <= i < parts@.len() && (#[trigger] parts@[i] matches ConcatPart::Str(x) && expr_suppresses(x))),
    decreases parts,
{
    let mut i: usize = 0;
    while i < parts.len()
        invariant
            i <= parts@.len(),
            forall|j: int|
                0 <= j < i ==> !(#[trigger] parts@[j] matches ConcatPart::Str(x) && expr_suppresses(x)),
        decreases parts@.len() - i,
    {
        if let ConcatPart::Str(x) = &parts[i] {
            assert(decreases_to!(parts => parts@));
            assert(decreases_to!(parts@ => parts@[i as int]));
            if in_expr(x) {
                return true;
            }
        }
        i += 1;
    }
    false
}

fn in_opt(e: &Option<Expr>) -> (r: bool)
    ensures
        r == opt_expr(*e),
{
    match e {
        Some(x) => in_expr(x),
        None => false,
    }
}

fn in_opt_stmt(s: &Option<Box<Stmt>>) -> (r: bool)
    ensures
        r == (s matches Some(x) && stmt_suppresses(**x)),
    decreases s,
{
    match s {
        Some(x) => in_stmt(x),
        None => false,
    }
}

fn in_catches(v: &Vec<Catch>) -> (r: bool)
    ensures
        r == (exists|i: int| 0 <= i < v@.len() && stmt_suppresses(*(#[trigger] v@[i]).body)),
    decreases v,
{
    let mut i: usize = 0;
    while i < v.len()
        invariant
            i <= v@.len(),
            forall|j: int| 0 <= j < i ==> !stmt_suppresses(*(#[trigger] v@[j]).body),
        decreases v@.len() - i,
    {
        let c = &v[i];
        assert(decreases_to!(v => v@));
        assert(decreases_to!(v@ => v@[i as int]));
        if in_stmt(&c.body) {
            return true;
        }
        i += 1;
    }
    false
}

fn in_cases(v: &Vec<SwitchCase>) -> (r: bool)
    ensures
        r == (exists|i: int, j: int|
            0 <= i < v@.len() && 0 <= j < v@[i].body@.len() && stmt_suppresses(#[trigger] v@[i].body@[j])),
    decreases v,
{
    let mut i: usize = 0;
    while i < v.len()
        invariant
            i <= v@.len(),
            forall|k: int, j: int|
                0 <= k < i && 0 <= j < v@[k].body@.len() ==> !stmt_suppresses(#[trigger] v@[k].body@[j]),
        decreases v@.len() - i,
    {
        let c = &v[i];
        assert(decreases_to!(v => v@));
        assert(decreases_to!(v@ => v@[i as int]));
        if stmts_mention_addsuppressed(&c.body) {
            return true;
        }
        i += 1;
    }
    false
}

fn in_stmt(s: &Stmt) -> (r: bool)
    ensures
        r == stmt_suppresses(*s),
    decreases s,
{
    match s {
        Stmt::Block(v) => stmts_mention_addsuppressed(v),
        Stmt::ExprStmt(e) => in_expr(e),
        Stmt::LocalDef { init, .. } => in_opt(init),
        Stmt::Return(e) => in_opt(e),
        Stmt::Throw(e) => in_expr(e),
        Stmt::If { cond, then_stmt, else_stmt } => in_expr(cond) || in_stmt(then_stmt) || in_opt_stmt(
            else_stmt,
        ),
        Stmt::While { cond, body } => in_expr(cond) || in_stmt(body),
        Stmt::DoWhile { body, cond } => in_expr(cond) || in_stmt(body),
        Stmt::For { init, cond, update, body } => stmts_mention_addsuppressed(init) || in_opt(cond)
            || in_exprs(update) || in_stmt(body),
        Stmt::ForEach { iterable, body, .. } => in_expr(iterable) || in_stmt(body),
        Stmt::Switch { selector, cases, default } => in_expr(selector) || in_cases(cases)
            || in_opt_stmt(default),
        Stmt::Try { body, catches, finally } => in_stmt(body) || in_catches(catches) || in_opt_stmt(
            finally,
        ),
        Stmt::TryWithResources { body, catches, finally, .. } => in_stmt(body) || in_catches(catches)
            || in_opt_stmt(finally),
        Stmt::Synchronized { lock, body } => in_expr(lock) || in_stmt(body),
        Stmt::Labeled { body, .. } => in_stmt(body),
        Stmt::Assert { cond, msg } => in_expr(cond) || in_opt(msg),
        _ => false,
    }
}

/// True when any expression in these statements calls
/// `Throwable.addSuppressed`.
pub fn stmts_mention_addsuppressed(stmts: &Vec<Stmt>) -> (r: bool)
    ensures
        r == suppresses(stmts@),
    decreases stmts,
{
    let mut i: usize = 0;
    while i < stmts.len()
        invariant
            i <= stmts@.len(),
            forall|j: int| 0 <= j < i ==> !stmt_suppresses(#[trigger] stmts@[j]),
        decreases stmts@.len() - i,
    {
        if in_stmt(&stmts[i]) {
            return true;
        }
        i += 1;
    }
    false
}

// ---------------------------------------------------------------------------
// Where such calls are found
// ---------------------------------------------------------------------------

/// The expression is itself a call of a method named `addSuppressed`.
pub open spec fn is_suppressing(e: Expr) -> bool {
    e matches Expr::Method { name, .. } && name@ == "addSuppressed"@
}

/// The expression `x` is an operand of `e`: evaluating `e` evaluates it.
pub open spec fn operand(e: Expr, x: Expr) -> bool {
    match e {
        Expr::Method { owner, args, .. } => (owner matches Some(o) && *o == x) || args@.contains(x),
        Expr::Field { owner, .. } => owner matches Some(o) && *o == x,
        Expr::Bin { l, r, .. } => x == *l || x == *r,
        Expr::Assign { target, value, .. } => x == *target || x == *value,
        Expr::Cond { c, t, f } => x == *c || x == *t || x == *f,
        Expr::Un { e: y, .. } => x == *y,
        Expr::Cast { e: y, .. } => x == *y,
        Expr::InstanceOf { e: y, .. } => x == *y,
        Expr::PreIncDec { e: y, .. } => x == *y,
        Expr::PostIncDec { e: y, .. } => x == *y,
        Expr::ArrayIndex { array, index } => x == *array || x == *index,
        Expr::New { args, .. } => args@.contains(x),
        Expr::AnonNew { args, .. } => args@.contains(x),
        Expr::NewArray { dims, init, .. } => dims@.contains(x) || (init matches Some(v) && v@.contains(x)),
        Expr::StringConcat(parts) => parts@.contains(ConcatPart::Str(x)),
        Expr::Invokedynamic { args, .. } => args@.contains(x),
        Expr::Lambda(l) => l.captures@.contains(x),
        _ => false,
    }
}

proof fn lemma_any_operand(v: Seq<Expr>)
    ensures
        any_expr(v) <==> exists|x: Expr| #[trigger] v.contains(x) && expr_suppresses(x),
{
    if any_expr(v) {
        let i = choose|i: int| 0 <= i < v.len() && expr_suppresses(#[trigger] v[i]);
        assert(v.contains(v[i]));
    }
}

/// An expression suppresses exactly if it is such a call or an operand does.
pub proof fn law_expr_suppresses(e: Expr)
    ensures
        expr_suppresses(e) <==> is_suppressing(e) || exists|x: Expr| #[trigger] operand(e, x) && expr_suppresses(x),
{
    match e {
        Expr::Method { owner, args, .. } => {
            lemma_any_operand(args@);
            lemma_operand_found(e, args@);
            if owner is Some {
                assert(operand(e, *owner->0));
            }
        },
        Expr::Field { owner, .. } => {
            if owner is Some {
                assert(operand(e, *owner->0));
            }
        },
        Expr::Bin { l, r, .. } => {
            assert(operand(e, *l) && operand(e, *r));
        },
        Expr::Assign { target, value, .. } => {
            assert(operand(e, *target) && operand(e, *value));
        },
        Expr::Cond { c, t, f } => {
            assert(operand(e, *c) && operand(e, *t) && operand(e, *f));
        },
        Expr::Un { e: y, .. } => {
            assert(operand(e, *y));
        },
        Expr::Cast { e: y, .. } => {
            assert(operand(e, *y));
        },
        Expr::InstanceOf { e: y, .. } => {
            assert(operand(e, *y));
        },
        Expr::PreIncDec { e: y, .. } => {
            assert(operand(e, *y));
        },
        Expr::PostIncDec { e: y, .. } => {
            assert(operand(e, *y));
        },
        Expr::ArrayIndex { array, index } => {
            assert(operand(e, *array) && operand(e, *index));
        },
        Expr::New { args, .. } => {
            lemma_any_operand(args@);
            lemma_operand_found(e, args@);
        },
        Expr::AnonNew { args, .. } => {
            lemma_any_operand(args@);
            lemma_operand_found(e, args@);
        },
        Expr::NewArray { dims, init, .. } => {
            lemma_any_operand(dims@);
            lemma_operand_found(e, dims@);
            if init is Some {
                lemma_any_operand(init->0@);
                lemma_operand_found(e, init->0@);
            }
        },
        Expr::StringConcat(parts) => {
            if expr_suppresses(e) {
                let i = choose|i: int|
                    0 <= i < parts@.len() && (#[trigger] parts@[i] matches ConcatPart::Str(x) && expr_suppresses(x));
                let x = parts@[i]->Str_0;
                assert(parts@[i] == ConcatPart::Str(x));
                assert(operand(e, x));
            }
            assert forall|x: Expr| #[trigger] operand(e, x) && expr_suppresses(x) implies expr_suppresses(e) by {
                let i = choose|i: int| 0 <= i < parts@.len() && parts@[i] == ConcatPart::Str(x);
                assert(parts@[i] == ConcatPart::Str(x));
            }
        },
        Expr::Invokedynamic { args, .. } => {
            lemma_any_operand(args@);
            lemma_operand_found(e, args@);
        },
        Expr::Lambda(l) => {
            lemma_any_operand(l.captures@);
            lemma_operand_found(e, l.captures@);
        },
        _ => {},
    }
}

proof fn lemma_operand_found(e: Expr, v: Seq<Expr>)
    requires
        forall|x: Expr| #[trigger] v.contains(x) ==> operand(e, x),
        any_expr(v) ==> expr_suppresses(e),
    ensures
        any_expr(v) ==> exists|x: Expr| #[trigger] operand(e, x) && expr_suppresses(x),
{
    lemma_any_operand(v);
    if any_expr(v) {
        let x = choose|x: Expr| #[trigger] v.contains(x) && expr_suppresses(x);
        assert(operand(e, x));
    }
}

/// The expression `x` stands in the statement itself.
pub open spec fn evaluates(s: Stmt, x: Expr) -> bool {
    match s {
        Stmt::ExprStmt(e) => x == e,
        Stmt::LocalDef { init, .. } => init == Some(x),
        Stmt::Return(e) => e == Some(x),
        Stmt::Throw(e) => x == e,
        Stmt::If { cond, .. } => x == cond,
        Stmt::While { cond, .. } => x == cond,
        Stmt::DoWhile { cond, .. } => x == cond,
        Stmt::For { cond, update, .. } => cond == Some(x) || update@.contains(x),
        Stmt::ForEach { iterable, .. } => x == iterable,
        Stmt::Switch { selector, .. } => x == selector,
        Stmt::Synchronized { lock, .. } => x == lock,
        Stmt::Assert { cond, msg } => x == cond || msg == Some(x),
        _ => false,
    }
}

/// The statement `t` stands directly in `s`.
pub open spec fn encloses(s: Stmt, t: Stmt) -> bool {
    match s {
        Stmt::Block(v) => v@.contains(t),
        Stmt::If { then_stmt, else_stmt, .. } => t == *then_stmt || (else_stmt matches Some(x) && t == *x),
        Stmt::While { body, .. } => t == *body,
        Stmt::DoWhile { body, .. } => t == *body,
        Stmt::For { init, body, .. } => init@.contains(t) || t == *body,
        Stmt::ForEach { body, .. } => t == *body,
        Stmt::Switch { cases, default, .. } => {
            ||| exists|i: int| 0 <= i < cases@.len() && (#[trigger] cases@[i]).body@.contains(t)
            ||| (default matches Some(x) && t == *x)
        },
        Stmt::Try { body, catches, finally } => {
            ||| t == *body
            ||| exists|i: int| 0 <= i < catches@.len() && t == *(#[trigger] catches@[i]).body
            ||| (finally matches Some(x) && t == *x)
        },
        Stmt::TryWithResources { body, catches, finally, .. } => {
            ||| t == *body
            ||| exists|i: int| 0 <= i < catches@.len() && t == *(#[trigger] catches@[i]).body
            ||| (finally matches Some(x) && t == *x)
        },
        Stmt::Synchronized { body, .. } => t == *body,
        Stmt::Labeled { body, .. } => t == *body,
        _ => false,
    }
}

/// A statement that holds a suppressing expression or statement suppresses.
pub proof fn law_stmt_suppresses(s: Stmt, x: Expr, t: Stmt)
    ensures
        evaluates(s, x) && expr_suppresses(x) ==> stmt_suppresses(s),
        encloses(s, t) && stmt_suppresses(t) ==> stmt_suppresses(s),
{
    match s {
        Stmt::Block(v) => {
            if v@.contains(t) {
                let i = choose|i: int| 0 <= i < v@.len() && v@[i] == t;
                assert(v@[i] == t);
            }
        },
        Stmt::For { init, update, .. } => {
            lemma_any_operand(update@);
            if init@.contains(t) {
                let i = choose|i: int| 0 <= i < init@.len() && init@[i] == t;
                assert(init@[i] == t);
            }
        },
        Stmt::Switch { cases, default, .. } => {
            if encloses(s, t) && !(default matches Some(x) && t == *x) {
                let i = choose|i: int| 0 <= i < cases@.len() && (#[trigger] cases@[i]).body@.contains(t);
                let j = choose|j: int| 0 <= j < cases@[i].body@.len() && cases@[i].body@[j] == t;
                assert(cases@[i].body@[j] == t);
            }
        },
        _ => {},
    }
}

/// A statement suppresses only if it holds a suppressing expression or statement.
pub proof fn law_only_suppressing(s: Stmt)
    requires
        stmt_suppresses(s),
    ensures
        (exists|x: Expr| #[trigger] evaluates(s, x) && expr_suppresses(x)) || (exists|t: Stmt| #[trigger]
            encloses(s, t) && stmt_suppresses(t)),
{
    match s {
        Stmt::Block(v) => {
            let i = choose|i: int| 0 <= i < v@.len() && stmt_suppresses(#[trigger] v@[i]);
            assert(encloses(s, v@[i]));
        },
        Stmt::ExprStmt(e) => {
            assert(evaluates(s, e));
        },
        Stmt::LocalDef { init, .. } => {
            assert(evaluates(s, init->0));
        },
        Stmt::Return(e) => {
            assert(evaluates(s, e->0));
        },
        Stmt::Throw(e) => {
            assert(evaluates(s, e));
        },
        Stmt::If { cond, then_stmt, else_stmt } => {
            assert(evaluates(s, cond) && encloses(s, *then_stmt));
            if else_stmt is Some {
                assert(encloses(s, *else_stmt->0));
            }
        },
        Stmt::While { cond, body } => {
            assert(evaluates(s, cond) && encloses(s, *body));
        },
        Stmt::DoWhile { body, cond } => {
            assert(evaluates(s, cond) && encloses(s, *body));
        },
        Stmt::For { init, cond, update, body } => {
            lemma_any_operand(update@);
            assert(encloses(s, *body));
            if opt_expr(cond) {
                assert(evaluates(s, cond->0));
            } else if any_expr(update@) {
                let x = choose|x: Expr| #[trigger] update@.contains(x) && expr_suppresses(x);
                assert(evaluates(s, x));
            } else if !stmt_suppresses(*body) {
                let i = choose|i: int| 0 <= i < init@.len() && stmt_suppresses(#[trigger] init@[i]);
                assert(init@.contains(init@[i]));
                assert(encloses(s, init@[i]));
            }
        },
        Stmt::ForEach { iterable, body, .. } => {
            assert(evaluates(s, iterable) && encloses(s, *body));
        },
        Stmt::Switch { selector, cases, default } => {
            assert(evaluates(s, selector));
            if default is Some {
                assert(encloses(s, *default->0));
            }
            if exists|i: int, j: int|
                0 <= i < cases@.len() && 0 <= j < cases@[i].body@.len() && stmt_suppresses(#[trigger] cases@[i].body@[j]) {
                let (i, j) = choose|i: int, j: int|
                    0 <= i < cases@.len() && 0 <= j < cases@[i].body@.len() && stmt_suppresses(#[trigger] cases@[i].body@[j]);
                assert(cases@[i].body@.contains(cases@[i].body@[j]));
                assert(encloses(s, cases@[i].body@[j]));
            }
        },
        Stmt::Try { body, catches, finally } => {
            assert(encloses(s, *body));
            if finally is Some {
                assert(encloses(s, *finally->0));
            }
            if exists|i: int| 0 <= i < catches@.len() && stmt_suppresses(*(#[trigger] catches@[i]).body) {
                let i = choose|i: int| 0 <= i < catches@.len() && stmt_suppresses(*(#[trigger] catches@[i]).body);
                assert(encloses(s, *catches@[i].body));
            }
        },
        Stmt::TryWithResources { body, catches, finally, .. } => {
            assert(encloses(s, *body));
            if finally is Some {
                assert(encloses(s, *finally->0));
            }
            if exists|i: int| 0 <= i < catches@.len() && stmt_suppresses(*(#[trigger] catches@[i]).body) {
                let i = choose|i: int| 0 <= i < catches@.len() && stmt_suppresses(*(#[trigger] catches@[i]).body);
                assert(encloses(s, *catches@[i].body));
            }
        },
        Stmt::Synchronized { lock, body } => {
            assert(evaluates(s, lock) && encloses(s, *body));
        },
        Stmt::Labeled { body, .. } => {
            assert(encloses(s, *body));
        },
        Stmt::Assert { cond, msg } => {
            assert(evaluates(s, cond));
            if msg is Some {
                assert(evaluates(s, msg->0));
            }
        },
        _ => {},
    }
}

} // verus!
