//! The input language: expressions and statements as parsed, with subterms
//! borrowed from an arena and source identifiers interned as integers.
use vstd::prelude::*;
use crate::ops::{NumBinop, NumUnop, StrBinop, StrUnop};

verus! {

/// An interned source identifier.
pub type Name = u64;

/// An expression. A numeric literal is carried as the bit pattern of its
/// binary64 value.
#[derive(Debug)]
pub enum Expr<'a, 'b> {
    NumLit(u64),
    StrLit(&'b str),
    Unop(Result<NumUnop, StrUnop>, &'a Expr<'a, 'b>),
    Binop(Result<NumBinop, StrBinop>, &'a Expr<'a, 'b>, &'a Expr<'a, 'b>),
    Var(Name),
    Index(&'a Expr<'a, 'b>, &'a Expr<'a, 'b>),
    /// The target is a variable or an index expression.
    Assign(&'a Expr<'a, 'b>, &'a Expr<'a, 'b>),
    /// The target is a variable or an index expression.
    AssignOp(&'a Expr<'a, 'b>, NumBinop, &'a Expr<'a, 'b>),
}

/// A statement.
#[derive(Debug)]
pub enum Stmt<'a, 'b> {
    Expr(&'a Expr<'a, 'b>),
    Block(Vec<&'a Stmt<'a, 'b>>),
    /// The values to print (at least one) and an optional output target.
    Print(Vec<&'a Expr<'a, 'b>>, Option<&'a Expr<'a, 'b>>),
    If(&'a Expr<'a, 'b>, &'a Stmt<'a, 'b>, Option<&'a Stmt<'a, 'b>>),
    /// Initialisation, condition, update and body.
    For(
        Option<&'a Stmt<'a, 'b>>,
        Option<&'a Expr<'a, 'b>>,
        Option<&'a Stmt<'a, 'b>>,
        &'a Stmt<'a, 'b>,
    ),
    While(&'a Expr<'a, 'b>, &'a Stmt<'a, 'b>),
    /// `for (name in map) body`
    ForEach(Name, &'a Expr<'a, 'b>, &'a Stmt<'a, 'b>),
}

/// The number of expression nodes in `e`.
pub open spec fn expr_size(e: Expr) -> nat
    decreases e,
{
    match e {
        Expr::NumLit(_) => 1,
        Expr::StrLit(_) => 1,
        Expr::Var(_) => 1,
        Expr::Unop(_, a) => 1 + expr_size(*a),
        Expr::Binop(_, a, b) => 1 + expr_size(*a) + expr_size(*b),
        Expr::Index(a, b) => 1 + expr_size(*a) + expr_size(*b),
        Expr::Assign(a, b) => 1 + expr_size(*a) + expr_size(*b),
        Expr::AssignOp(a, _, b) => 1 + expr_size(*a) + expr_size(*b),
    }
}

/// Whether `e` can be the target of an assignment.
pub open spec fn is_assignable(e: Expr) -> bool {
    e is Var || e is Index
}

/// Every assignment in `e` targets a variable or an index expression.
pub open spec fn expr_wf(e: Expr) -> bool
    decreases e,
{
    match e {
        Expr::NumLit(_) => true,
        Expr::StrLit(_) => true,
        Expr::Var(_) => true,
        Expr::Unop(_, a) => expr_wf(*a),
        Expr::Binop(_, a, b) => expr_wf(*a) && expr_wf(*b),
        Expr::Index(a, b) => expr_wf(*a) && expr_wf(*b),
        Expr::Assign(a, b) => is_assignable(*a) && expr_wf(*a) && expr_wf(*b),
        Expr::AssignOp(a, _, b) => is_assignable(*a) && expr_wf(*a) && expr_wf(*b),
    }
}

pub open spec fn opt_expr_size(e: Option<&Expr>) -> nat {
    match e {
        Some(x) => expr_size(*x),
        None => 0,
    }
}

/// The number of statement and expression nodes in `s`.
pub open spec fn stmt_size(s: Stmt) -> nat
    decreases s, 1nat,
{
    match s {
        Stmt::Expr(e) => 1 + expr_size(*e),
        Stmt::Block(ss) => 1 + stmts_size(ss@),
        Stmt::Print(es, out) => 1 + exprs_size(es@) + opt_expr_size(out),
        Stmt::If(c, t, f) => 1 + expr_size(*c) + stmt_size(*t) + match f {
            Some(x) => stmt_size(*x),
            None => 0,
        },
        Stmt::For(init, cond, update, body) => 1 + match init {
            Some(x) => stmt_size(*x),
            None => 0,
        } + opt_expr_size(cond) + match update {
            Some(x) => stmt_size(*x),
            None => 0,
        } + stmt_size(*body),
        Stmt::While(c, body) => 1 + expr_size(*c) + stmt_size(*body),
        Stmt::ForEach(_, a, body) => 1 + expr_size(*a) + stmt_size(*body),
    }
}

/// The total size of a sequence of statements.
pub open spec fn stmts_size(ss: Seq<&Stmt>) -> nat
    decreases ss, 0nat,
{
    if ss.len() == 0 {
        0
    } else {
        stmts_size(ss.drop_last()) + stmt_size(*ss.last())
    }
}

/// The total size of a sequence of expressions.
pub open spec fn exprs_size(es: Seq<&Expr>) -> nat
    decreases es.len(),
{
    if es.len() == 0 {
        0
    } else {
        exprs_size(es.drop_last()) + expr_size(*es.last())
    }
}

pub open spec fn opt_stmt_size(s: Option<&Stmt>) -> nat {
    match s {
        Some(x) => stmt_size(*x),
        None => 0,
    }
}

/// Every expression in `es` is well formed.
pub open spec fn exprs_wf(es: Seq<&Expr>) -> bool {
    forall|i: int| 0 <= i < es.len() ==> expr_wf(*#[trigger] es[i])
}

pub open spec fn opt_expr_wf(e: Option<&Expr>) -> bool {
    match e {
        Some(x) => expr_wf(*x),
        None => true,
    }
}

/// Every expression in `s` is well formed, and every `print` has a value to
/// print.
pub open spec fn stmt_wf(s: Stmt) -> bool
    decreases s, 1nat,
{
    match s {
        Stmt::Expr(e) => expr_wf(*e),
        Stmt::Block(ss) => stmts_wf(ss@),
        Stmt::Print(es, out) => es.len() > 0 && exprs_wf(es@) && opt_expr_wf(out),
        Stmt::If(c, t, f) => {
            &&& expr_wf(*c)
            &&& stmt_wf(*t)
            &&& match f {
                Some(x) => stmt_wf(*x),
                None => true,
            }
        },
        Stmt::For(init, cond, update, body) => {
            &&& match init {
                Some(x) => stmt_wf(*x),
                None => true,
            }
            &&& opt_expr_wf(cond)
            &&& match update {
                Some(x) => stmt_wf(*x),
                None => true,
            }
            &&& stmt_wf(*body)
        },
        Stmt::While(c, body) => expr_wf(*c) && stmt_wf(*body),
        Stmt::ForEach(_, a, body) => expr_wf(*a) && stmt_wf(*body),
    }
}

/// Every statement in `ss` is well formed.
pub open spec fn stmts_wf(ss: Seq<&Stmt>) -> bool
    decreases ss, 0nat,
{
    if ss.len() == 0 {
        true
    } else {
        stmts_wf(ss.drop_last()) && stmt_wf(*ss.last())
    }
}

/// A literal or a variable: lowered to a value without any statement.
pub open spec fn is_atom(e: Expr) -> bool {
    e is NumLit || e is StrLit || e is Var
}

/// Whether lowering `e` appends a statement to the current block: it
/// assigns, or applies an operator to something that is not an atom (whose
/// value then goes into a temporary).
pub open spec fn expr_appends(e: Expr) -> bool {
    match e {
        Expr::NumLit(_) => false,
        Expr::StrLit(_) => false,
        Expr::Var(_) => false,
        Expr::Unop(_, a) => !is_atom(*a),
        Expr::Binop(_, a, b) => !is_atom(*a) || !is_atom(*b),
        Expr::Index(a, b) => !is_atom(*a) || !is_atom(*b),
        Expr::Assign(_, _) => true,
        Expr::AssignOp(_, _, _) => true,
    }
}

/// Whether lowering `s` uses the block it starts in: every statement does
/// but an expression that appends nothing, or a block of such.
pub open spec fn stmt_touches_open(s: Stmt) -> bool
    decreases s, 1nat,
{
    match s {
        Stmt::Expr(e) => expr_appends(*e),
        Stmt::Block(ss) => stmts_touch_open(ss@),
        _ => true,
    }
}

/// Whether lowering the statements of a block uses the block it starts in.
pub open spec fn stmts_touch_open(ss: Seq<&Stmt>) -> bool
    decreases ss, 0nat,
{
    if ss.len() == 0 {
        false
    } else {
        stmts_touch_open(ss.drop_last()) || stmt_touches_open(*ss.last())
    }
}

} // verus!
