//! Facts about the lowering model: every step only appends to the context,
//! keeps it well formed, and expressions never add nodes or edges.
use vstd::prelude::*;
use crate::ast1::{
    expr_appends, expr_size, is_atom, opt_stmt_size, stmt_size, stmt_touches_open, stmt_wf, stmts_size,
    stmts_touch_open, stmts_wf, Expr, Name, Stmt,
};
use crate::graph::NodeIx;
use crate::model::{assign_value_size, AssignValue, CtxModel};
use crate::prim::{PrimExprModel, PrimStmtModel, PrimVal};

verus! {

/// `r` extends `m`, has the same nodes and edges, and is well formed when `m`
/// is and `r`'s counters fit.
pub open spec fn same_graph_step(r: CtxModel, m: CtxModel) -> bool {
    &&& r.extends(m)
    &&& r.blocks.len() == m.blocks.len()
    &&& r.edges == m.edges
    &&& m.wf() && r.fits() ==> r.wf()
}

/// `r` extends `m` and is well formed when `m` is and `r`'s counters fit.
pub open spec fn graph_step(r: CtxModel, m: CtxModel) -> bool {
    &&& r.extends(m)
    &&& m.wf() && r.fits() ==> r.wf()
}

pub proof fn lemma_extends_refl(m: CtxModel)
    ensures
        m.extends(m),
{
}

pub proof fn lemma_extends_trans(a: CtxModel, b: CtxModel, c: CtxModel)
    requires
        b.extends(a),
        c.extends(b),
    ensures
        c.extends(a),
{
    assert forall|i: int, j: int|
        0 <= i < a.blocks.len() && 0 <= j < a.blocks[i].len() implies (#[trigger] c.blocks[i][j])
        == a.blocks[i][j] by {
        assert(b.blocks[i][j] == a.blocks[i][j]);
        assert(b.blocks[i].len() >= a.blocks[i].len());
    }
}

pub proof fn lemma_fresh(m: CtxModel)
    ensures
        same_graph_step(m.fresh().0, m),
        m.fresh().0.max == m.max + 1,
{
}

pub proof fn lemma_get_identifier(m: CtxModel, name: Name)
    ensures
        same_graph_step(m.get_identifier(name).0, m),
        m.get_identifier(name).0.names.contains_key(name),
        m.get_identifier(name).0.names[name] == m.get_identifier(name).1,
{
    let r = m.get_identifier(name).0;
    if !m.names.contains_key(name) {
        if m.wf() && r.fits() {
            let id = m.get_identifier(name).1;
            assert(id.0 == m.max);
            assert forall|k1: Name, k2: Name|
                #[trigger] r.names.contains_key(k1) && #[trigger] r.names.contains_key(k2) && k1
                    != k2 implies r.names[k1] != r.names[k2] by {
                if k1 != name && k2 != name {
                    assert(m.names.contains_key(k1) && m.names.contains_key(k2));
                } else if k1 == name {
                    assert(m.names.contains_key(k2));
                } else {
                    assert(m.names.contains_key(k1));
                }
            }
        }
    }
}

pub proof fn lemma_add_stmt(m: CtxModel, at: NodeIx, s: PrimStmtModel)
    requires
        at < m.blocks.len(),
    ensures
        same_graph_step(m.add_stmt(at, s), m),
{
    let r = m.add_stmt(at, s);
    assert forall|i: int, j: int|
        0 <= i < m.blocks.len() && 0 <= j < m.blocks[i].len() implies (#[trigger] r.blocks[i][j])
        == m.blocks[i][j] by {
        if i == at {
            assert(r.blocks[i] == m.blocks[i].push(s));
        }
    }
}

pub proof fn lemma_add_node(m: CtxModel)
    ensures
        graph_step(m.add_node().0, m),
        m.add_node().0.blocks.len() == m.blocks.len() + 1,
        m.add_node().0.edges == m.edges,
        m.add_node().1 < m.add_node().0.blocks.len(),
        m.add_node().0.fits() ==> m.add_node().1 == m.blocks.len(),
{
    let r = m.add_node().0;
    assert forall|i: int| 0 <= i < m.blocks.len() implies #[trigger] r.blocks[i] == m.blocks[i] by {
    }
}

pub proof fn lemma_add_edge(m: CtxModel, a: NodeIx, b: NodeIx, w: Option<PrimVal>)
    requires
        a < m.blocks.len(),
        b < m.blocks.len(),
    ensures
        graph_step(m.add_edge(a, b, w), m),
        m.add_edge(a, b, w).blocks == m.blocks,
        m.add_edge(a, b, w).edges.len() == m.edges.len() + 1,
{
    let r = m.add_edge(a, b, w);
    if m.wf() && r.fits() {
        assert forall|i: int| 0 <= i < r.edges.len() implies (#[trigger] r.edges[i]).0
            < r.blocks.len() && r.edges[i].1 < r.blocks.len() by {
            if i < m.edges.len() {
                assert(r.edges[i] == m.edges[i]);
            }
        }
    }
}

pub proof fn lemma_to_val(m: CtxModel, e: PrimExprModel, open: NodeIx)
    requires
        open < m.blocks.len() || e is Val,
    ensures
        same_graph_step(m.to_val(e, open).0, m),
        e is Val ==> m.to_val(e, open).0 == m,
{
    match e {
        PrimExprModel::Val(_) => {},
        _ => {
            let (m1, f) = m.fresh();
            lemma_fresh(m);
            lemma_add_stmt(m1, open, PrimStmtModel::AsgnVar(f, e));
            lemma_extends_trans(m, m1, m.to_val(e, open).0);
        },
    }
}

/// Chains two steps that keep the graph.
pub proof fn lemma_same_chain(a: CtxModel, b: CtxModel, c: CtxModel)
    requires
        same_graph_step(b, a),
        same_graph_step(c, b),
    ensures
        same_graph_step(c, a),
{
    lemma_extends_trans(a, b, c);
}

/// Chains two steps.
pub proof fn lemma_chain(a: CtxModel, b: CtxModel, c: CtxModel)
    requires
        graph_step(b, a),
        graph_step(c, b),
    ensures
        graph_step(c, a),
{
    lemma_extends_trans(a, b, c);
}

/// Lowering an expression adds no node and no edge; it only appends to the
/// blocks and names, and keeps the context well formed.
pub proof fn lemma_convert_expr(m: CtxModel, e: Expr, open: NodeIx)
    requires
        open < m.blocks.len() || !expr_appends(e),
    ensures
        same_graph_step(m.convert_expr(e, open).0, m),
        !expr_appends(e) ==> m.convert_expr(e, open).0.blocks == m.blocks,
        is_atom(e) ==> m.convert_expr(e, open).1 is Val,
    decreases expr_size(e), 1nat,
{
    match e {
        Expr::NumLit(_) => {},
        Expr::StrLit(_) => {},
        Expr::Var(name) => lemma_get_identifier(m, name),
        Expr::Unop(_, a) => lemma_convert_val(m, *a, open),
        Expr::Binop(_, a, b) => {
            lemma_convert_val(m, *a, open);
            let m1 = m.convert_val(*a, open).0;
            lemma_convert_val(m1, *b, open);
            lemma_same_chain(m, m1, m1.convert_val(*b, open).0);
        },
        Expr::Index(a, b) => {
            lemma_convert_val(m, *a, open);
            let m1 = m.convert_val(*a, open).0;
            lemma_convert_val(m1, *b, open);
            lemma_same_chain(m, m1, m1.convert_val(*b, open).0);
        },
        Expr::Assign(lhs, to) => match *lhs {
            Expr::Var(name) => {
                lemma_convert_expr(m, *to, open);
                let (m1, to_e) = m.convert_expr(*to, open);
                lemma_get_identifier(m1, name);
                let (m2, id) = m1.get_identifier(name);
                lemma_add_stmt(m2, open, PrimStmtModel::AsgnVar(id, to_e));
                lemma_same_chain(m, m1, m2);
                lemma_same_chain(m, m2, m2.add_stmt(open, PrimStmtModel::AsgnVar(id, to_e)));
            },
            Expr::Index(arr, ix) => {
                assert(expr_size(*lhs) == 1 + expr_size(*arr) + expr_size(*ix));
                lemma_do_assign(m, *arr, *ix, AssignValue::Expr(to), open);
            },
            _ => {},
        },
        Expr::AssignOp(lhs, op, to) => match *lhs {
            Expr::Var(name) => {
                lemma_convert_val(m, *to, open);
                let (m1, to_v) = m.convert_val(*to, open);
                lemma_get_identifier(m1, name);
                let (m2, id) = m1.get_identifier(name);
                let st = PrimStmtModel::AsgnVar(id, PrimExprModel::NumBinop(op, PrimVal::Var(id), to_v));
                lemma_add_stmt(m2, open, st);
                lemma_same_chain(m, m1, m2);
                lemma_same_chain(m, m2, m2.add_stmt(open, st));
            },
            Expr::Index(arr, ix) => {
                assert(expr_size(*lhs) == 1 + expr_size(*arr) + expr_size(*ix));
                lemma_do_assign(m, *arr, *ix, AssignValue::Op(op, to), open);
            },
            _ => {},
        },
    }
}

/// Lowering an expression to a value adds no node and no edge.
pub proof fn lemma_convert_val(m: CtxModel, e: Expr, open: NodeIx)
    requires
        open < m.blocks.len() || is_atom(e),
    ensures
        same_graph_step(m.convert_val(e, open).0, m),
        is_atom(e) ==> m.convert_val(e, open).0.blocks == m.blocks,
    decreases expr_size(e), 2nat,
{
    lemma_convert_expr(m, e, open);
    let (m1, pe) = m.convert_expr(e, open);
    lemma_to_val(m1, pe, open);
    lemma_same_chain(m, m1, m1.to_val(pe, open).0);
}

/// Lowering an indexed assignment adds no node and no edge.
pub proof fn lemma_do_assign(m: CtxModel, arr: Expr, ix: Expr, value: AssignValue, open: NodeIx)
    requires
        open < m.blocks.len(),
    ensures
        same_graph_step(m.do_assign(arr, ix, value, open).0, m),
    decreases expr_size(arr) + expr_size(ix) + assign_value_size(value) + 1, 0nat,
{
    lemma_convert_expr(m, arr, open);
    let (m1, arr_e) = m.convert_expr(arr, open);
    lemma_fresh(m1);
    let (m2, arr_id) = m1.fresh();
    lemma_add_stmt(m2, open, PrimStmtModel::AsgnVar(arr_id, arr_e));
    let m3 = m2.add_stmt(open, PrimStmtModel::AsgnVar(arr_id, arr_e));
    lemma_same_chain(m, m1, m2);
    lemma_same_chain(m, m2, m3);
    lemma_convert_val(m3, ix, open);
    let (m4, ix_v) = m3.convert_val(ix, open);
    lemma_same_chain(m, m3, m4);
    let arr_v = PrimVal::Var(arr_id);
    match value {
        AssignValue::Expr(to) => {
            lemma_convert_expr(m4, *to, open);
            lemma_same_chain(m, m4, m4.convert_expr(*to, open).0);
        },
        AssignValue::Op(op, to) => {
            lemma_convert_val(m4, *to, open);
            let (m5a, to_v) = m4.convert_val(*to, open);
            lemma_to_val(m5a, PrimExprModel::Index(arr_v, ix_v), open);
            lemma_same_chain(m, m4, m5a);
            lemma_same_chain(m, m5a, m5a.to_val(PrimExprModel::Index(arr_v, ix_v), open).0);
        },
    }
    let (m5, to_e) = match value {
        AssignValue::Expr(to) => m4.convert_expr(*to, open),
        AssignValue::Op(op, to) => {
            let (m5a, to_v) = m4.convert_val(*to, open);
            let (m5b, cell) = m5a.to_val(PrimExprModel::Index(arr_v, ix_v), open);
            (m5b, PrimExprModel::NumBinop(op, cell, to_v))
        },
    };
    lemma_add_stmt(m5, open, PrimStmtModel::AsgnIndex(arr_id, ix_v, to_e));
    lemma_same_chain(m, m5, m5.add_stmt(open, PrimStmtModel::AsgnIndex(arr_id, ix_v, to_e)));
}

/// Lowering a sequence of expressions to values adds no node and no edge.
pub proof fn lemma_convert_vals(m: CtxModel, es: Seq<&Expr>, open: NodeIx)
    requires
        open < m.blocks.len(),
    ensures
        same_graph_step(m.convert_vals(es, open).0, m),
        m.convert_vals(es, open).1.len() == es.len(),
    decreases es.len(),
{
    if es.len() == 0 {
    } else {
        lemma_convert_vals(m, es.drop_last(), open);
        let (m1, vs) = m.convert_vals(es.drop_last(), open);
        lemma_convert_val(m1, *es.last(), open);
        lemma_same_chain(m, m1, m1.convert_val(*es.last(), open).0);
    }
}

/// Lowering a statement only appends to the context, keeps it well formed
/// while its counters fit, and continues in an existing block.
pub proof fn lemma_convert_stmt(m: CtxModel, s: Stmt, open: NodeIx)
    requires
        open < m.blocks.len() || !stmt_touches_open(s),
    ensures
        graph_step(m.convert_stmt(s, open).0, m),
        open < m.blocks.len() ==> m.convert_stmt(s, open).1 < m.convert_stmt(s, open).0.blocks.len(),
        !stmt_touches_open(s) ==> m.convert_stmt(s, open).1 == open && m.convert_stmt(
            s,
            open,
        ).0.blocks == m.blocks && m.convert_stmt(s, open).0.edges == m.edges,
        s is Expr || s is Print ==> m.convert_stmt(s, open).1 == open && m.convert_stmt(
            s,
            open,
        ).0.blocks.len() == m.blocks.len() && m.convert_stmt(s, open).0.edges == m.edges,
    decreases stmt_size(s), 2nat,
{
    match s {
        Stmt::Expr(e) => {
            lemma_convert_expr(m, *e, open);
        },
        Stmt::Block(ss) => {
            lemma_convert_seq(m, ss@, open);
        },
        Stmt::Print(es, out) => {
            lemma_convert_vals(m, es@, open);
            let (m1, vals) = m.convert_vals(es@, open);
            let (m2, out_v) = match out {
                Some(x) => {
                    let (ma, v) = m1.convert_val(*x, open);
                    (ma, Some(v))
                },
                None => (m1, None),
            };
            match out {
                Some(x) => {
                    lemma_convert_val(m1, *x, open);
                },
                None => {},
            }
            lemma_same_chain(m, m1, m2);
            lemma_add_stmt(m2, open, PrimStmtModel::Print(vals, out_v));
            lemma_same_chain(m, m2, m2.add_stmt(open, PrimStmtModel::Print(vals, out_v)));
        },
        Stmt::If(cond, tcase, fcase) => {
            lemma_convert_val(m, *cond, open);
            let (m1, c_val) = m.convert_val(*cond, open);
            lemma_standalone_block(m1, *tcase);
            let (m2, t) = m1.standalone_block(*tcase);
            lemma_add_node(m2);
            let (m3, next) = m2.add_node();
            lemma_add_edge(m3, open, t.0, Some(c_val));
            let m4a = m3.add_edge(open, t.0, Some(c_val));
            lemma_add_edge(m4a, t.1, next, None);
            let m4 = m4a.add_edge(t.1, next, None);
            lemma_chain(m, m1, m2);
            lemma_chain(m, m2, m3);
            lemma_chain(m, m3, m4a);
            lemma_chain(m, m4a, m4);
            match fcase {
                Some(fc) => {
                    lemma_standalone_block(m4, *fc);
                    let (m5, f) = m4.standalone_block(*fc);
                    lemma_add_edge(m5, open, f.0, None);
                    let m6a = m5.add_edge(open, f.0, None);
                    lemma_add_edge(m6a, f.1, next, None);
                    lemma_chain(m, m4, m5);
                    lemma_chain(m, m5, m6a);
                    lemma_chain(m, m6a, m6a.add_edge(f.1, next, None));
                },
                None => {
                    lemma_add_edge(m4, open, next, None);
                    lemma_chain(m, m4, m4.add_edge(open, next, None));
                },
            }
        },
        Stmt::For(init, cond, update, body) => {
            let (m1, init_end) = match init {
                Some(i) => m.convert_stmt(*i, open),
                None => (m, open),
            };
            match init {
                Some(i) => lemma_convert_stmt(m, *i, open),
                None => lemma_extends_refl(m),
            }
            lemma_make_loop(m1, *body, update, init_end);
            let (m2, l) = m1.make_loop(*body, update, init_end);
            lemma_chain(m, m1, m2);
            let (m3, cond_val) = match cond {
                Some(c) => m2.convert_val(*c, l.0),
                None => (m2, PrimVal::NumLit(crate::prim::NUM_ONE)),
            };
            match cond {
                Some(c) => lemma_convert_val(m2, *c, l.0),
                None => lemma_extends_refl(m2),
            }
            lemma_chain(m, m2, m3);
            lemma_add_edge(m3, l.0, l.1, Some(cond_val));
            let m4 = m3.add_edge(l.0, l.1, Some(cond_val));
            lemma_add_edge(m4, l.0, l.3, None);
            lemma_chain(m, m3, m4);
            lemma_chain(m, m4, m4.add_edge(l.0, l.3, None));
        },
        Stmt::While(cond, body) => {
            lemma_make_loop(m, *body, None, open);
            let (m1, l) = m.make_loop(*body, None, open);
            lemma_convert_val(m1, *cond, l.0);
            let (m2, cond_val) = m1.convert_val(*cond, l.0);
            lemma_chain(m, m1, m2);
            lemma_add_edge(m2, l.0, l.1, Some(cond_val));
            let m3 = m2.add_edge(l.0, l.1, Some(cond_val));
            lemma_add_edge(m3, l.0, l.3, None);
            lemma_chain(m, m2, m3);
            lemma_chain(m, m3, m3.add_edge(l.0, l.3, None));
        },
        Stmt::ForEach(name, array, body) => {
            lemma_get_identifier(m, name);
            let (m1, v_id) = m.get_identifier(name);
            lemma_convert_val(m1, *array, open);
            let (m2, array_val) = m1.convert_val(*array, open);
            lemma_to_val(m2, PrimExprModel::IterBegin(array_val), open);
            let (m3, array_iter) = m2.to_val(PrimExprModel::IterBegin(array_val), open);
            lemma_add_node(m3);
            let (m4, cond_block) = m3.add_node();
            lemma_to_val(m4, PrimExprModel::HasNext(array_iter), cond_block);
            let (m5, cond_v) = m4.to_val(PrimExprModel::HasNext(array_iter), cond_block);
            lemma_add_edge(m5, open, cond_block, None);
            let m6 = m5.add_edge(open, cond_block, None);
            lemma_add_node(m6);
            let (m7, body_start) = m6.add_node();
            let st = PrimStmtModel::AsgnVar(v_id, PrimExprModel::Next(array_iter));
            lemma_add_stmt(m7, body_start, st);
            let m8 = m7.add_stmt(body_start, st);
            lemma_convert_stmt(m8, *body, body_start);
            let (m9, body_end) = m8.convert_stmt(*body, body_start);
            lemma_add_edge(m9, cond_block, body_start, Some(cond_v));
            let m10a = m9.add_edge(cond_block, body_start, Some(cond_v));
            lemma_add_edge(m10a, body_end, cond_block, None);
            let m10 = m10a.add_edge(body_end, cond_block, None);
            lemma_add_node(m10);
            let (m11, footer) = m10.add_node();
            lemma_add_edge(m11, cond_block, footer, None);
            lemma_chain(m, m1, m2);
            lemma_chain(m, m2, m3);
            lemma_chain(m, m3, m4);
            lemma_chain(m, m4, m5);
            lemma_chain(m, m5, m6);
            lemma_chain(m, m6, m7);
            lemma_chain(m, m7, m8);
            lemma_chain(m, m8, m9);
            lemma_chain(m, m9, m10a);
            lemma_chain(m, m10a, m10);
            lemma_chain(m, m10, m11);
            lemma_chain(m, m11, m11.add_edge(cond_block, footer, None));
        },
    }
}

/// Lowering the statements of a block, one after the other.
pub proof fn lemma_convert_seq(m: CtxModel, ss: Seq<&Stmt>, open: NodeIx)
    requires
        open < m.blocks.len() || !stmts_touch_open(ss),
    ensures
        graph_step(m.convert_seq(ss, open).0, m),
        open < m.blocks.len() ==> m.convert_seq(ss, open).1 < m.convert_seq(ss, open).0.blocks.len(),
        !stmts_touch_open(ss) ==> m.convert_seq(ss, open).1 == open && m.convert_seq(
            ss,
            open,
        ).0.blocks == m.blocks && m.convert_seq(ss, open).0.edges == m.edges,
    decreases stmts_size(ss), 5nat,
{
    if ss.len() == 0 {
    } else {
        assert(stmt_size(*ss.last()) >= 1);
        lemma_convert_seq(m, ss.drop_last(), open);
        let (m1, o1) = m.convert_seq(ss.drop_last(), open);
        lemma_convert_stmt(m1, *ss.last(), o1);
        lemma_chain(m, m1, m1.convert_stmt(*ss.last(), o1).0);
    }
}

/// A standalone block starts at a new node; both of its ends exist.
pub proof fn lemma_standalone_block(m: CtxModel, s: Stmt)
    ensures
        graph_step(m.standalone_block(s).0, m),
        m.standalone_block(s).1.0 < m.standalone_block(s).0.blocks.len(),
        m.standalone_block(s).1.1 < m.standalone_block(s).0.blocks.len(),
        m.standalone_block(s).0.fits() ==> m.standalone_block(s).1.0 == m.blocks.len(),
    decreases stmt_size(s), 3nat,
{
    lemma_add_node(m);
    let (m1, start) = m.add_node();
    lemma_convert_stmt(m1, s, start);
    lemma_chain(m, m1, m1.convert_stmt(s, start).0);
}

/// The four nodes of a loop skeleton exist.
pub proof fn lemma_make_loop(m: CtxModel, body: Stmt, update: Option<&Stmt>, open: NodeIx)
    requires
        open < m.blocks.len(),
    ensures
        graph_step(m.make_loop(body, update, open).0, m),
        m.make_loop(body, update, open).1.0 < m.make_loop(body, update, open).0.blocks.len(),
        m.make_loop(body, update, open).1.1 < m.make_loop(body, update, open).0.blocks.len(),
        m.make_loop(body, update, open).1.2 < m.make_loop(body, update, open).0.blocks.len(),
        m.make_loop(body, update, open).1.3 < m.make_loop(body, update, open).0.blocks.len(),
    decreases stmt_size(body) + opt_stmt_size(update), 4nat,
{
    assert(stmt_size(body) >= 1);
    lemma_add_node(m);
    let (m1, h) = m.add_node();
    let (m2, b) = match update {
        Some(u) => {
            let (ma, sm) = m1.standalone_block(body);
            let (mb, end) = ma.convert_stmt(*u, sm.1);
            (mb, (sm.0, end))
        },
        None => m1.standalone_block(body),
    };
    lemma_standalone_block(m1, body);
    match update {
        Some(u) => {
            let (ma, sm) = m1.standalone_block(body);
            lemma_convert_stmt(ma, *u, sm.1);
            lemma_chain(m1, ma, m2);
        },
        None => {},
    }
    lemma_chain(m, m1, m2);
    lemma_add_node(m2);
    let (m3, f) = m2.add_node();
    lemma_chain(m, m2, m3);
    lemma_add_edge(m3, open, h, None);
    let m4 = m3.add_edge(open, h, None);
    lemma_add_edge(m4, b.1, h, None);
    lemma_chain(m, m3, m4);
    lemma_chain(m, m4, m4.add_edge(b.1, h, None));
}

/// An element of a statement sequence is no larger than the sequence, and is
/// well formed when the sequence is.
pub proof fn lemma_stmts_index(ss: Seq<&Stmt>, i: int)
    requires
        0 <= i < ss.len(),
    ensures
        stmt_size(*ss[i]) <= stmts_size(ss),
        stmts_wf(ss) ==> stmt_wf(*ss[i]),
        !stmts_touch_open(ss) ==> !stmt_touches_open(*ss[i]),
    decreases ss.len(),
{
    if i < ss.len() - 1 {
        lemma_stmts_index(ss.drop_last(), i);
        assert(ss.drop_last()[i] == ss[i]);
    }
}

/// Lowering a block's statements extends the lowering of any prefix of them.
pub proof fn lemma_convert_seq_prefix(m: CtxModel, ss: Seq<&Stmt>, k: int, open: NodeIx)
    requires
        open < m.blocks.len() || !stmts_touch_open(ss),
        0 <= k <= ss.len(),
    ensures
        m.convert_seq(ss, open).0.extends(m.convert_seq(ss.take(k), open).0),
    decreases ss.len(),
{
    if k == ss.len() {
        assert(ss.take(k) =~= ss);
    } else {
        lemma_convert_seq_prefix(m, ss.drop_last(), k, open);
        assert(ss.drop_last().take(k) =~= ss.take(k));
        lemma_convert_seq(m, ss.drop_last(), open);
        let (m1, o1) = m.convert_seq(ss.drop_last(), open);
        lemma_convert_stmt(m1, *ss.last(), o1);
        lemma_extends_trans(m.convert_seq(ss.take(k), open).0, m1, m.convert_seq(ss, open).0);
    }
}

/// Lowering a sequence of values extends the lowering of any prefix of it.
pub proof fn lemma_convert_vals_prefix(m: CtxModel, es: Seq<&Expr>, k: int, open: NodeIx)
    requires
        open < m.blocks.len(),
        0 <= k <= es.len(),
    ensures
        m.convert_vals(es, open).0.extends(m.convert_vals(es.take(k), open).0),
    decreases es.len(),
{
    if k == es.len() {
        assert(es.take(k) =~= es);
    } else {
        lemma_convert_vals_prefix(m, es.drop_last(), k, open);
        assert(es.drop_last().take(k) =~= es.take(k));
        lemma_convert_vals(m, es.drop_last(), open);
        let (m1, vs) = m.convert_vals(es.drop_last(), open);
        lemma_convert_val(m1, *es.last(), open);
        lemma_extends_trans(m.convert_vals(es.take(k), open).0, m1, m.convert_vals(es, open).0);
    }
}

/// Asking twice for the identifier of a name gives the same identifier, and
/// the second request changes nothing.
pub proof fn lemma_get_identifier_stable(m: CtxModel, name: Name)
    ensures
        m.get_identifier(name).0.get_identifier(name).1 == m.get_identifier(name).1,
        m.get_identifier(name).0.get_identifier(name).0 == m.get_identifier(name).0,
{
    lemma_get_identifier(m, name);
}

/// In a well-formed context a fresh identifier differs from the identifier of
/// every name.
pub proof fn lemma_fresh_is_new(m: CtxModel, name: Name)
    requires
        m.wf(),
        m.fits(),
        m.names.contains_key(name),
    ensures
        m.names[name] != m.fresh().1,
{
}

/// In a well-formed context distinct names have distinct identifiers, and a
/// name not seen before gets an identifier no other name has.
pub proof fn lemma_new_name_distinct(m: CtxModel, name: Name, other: Name)
    requires
        m.wf(),
        m.get_identifier(name).0.fits(),
        m.names.contains_key(other),
        other != name,
    ensures
        m.get_identifier(name).1 != m.names[other],
{
    lemma_get_identifier(m, name);
}

/// A context lowered from a statement whose counters fit has entry node 0,
/// the first node created.
pub proof fn lemma_from_stmt_entry(s: Stmt)
    requires
        CtxModel::from_stmt(s).fits(),
    ensures
        CtxModel::from_stmt(s).entry == 0,
        CtxModel::from_stmt(s).wf(),
        0 < CtxModel::from_stmt(s).blocks.len(),
{
    let e = CtxModel::empty();
    lemma_standalone_block(e, s);
    assert(e.wf());
}

/// Lowering two sequences of statements one after the other: the second
/// starts from the state and block where the first ends.
pub proof fn lemma_convert_seq_append(m: CtxModel, ss1: Seq<&Stmt>, ss2: Seq<&Stmt>, open: NodeIx)
    ensures
        m.convert_seq(ss1 + ss2, open) == m.convert_seq(ss1, open).0.convert_seq(
            ss2,
            m.convert_seq(ss1, open).1,
        ),
    decreases ss2.len(),
{
    if ss2.len() == 0 {
        assert(ss1 + ss2 =~= ss1);
    } else {
        lemma_convert_seq_append(m, ss1, ss2.drop_last(), open);
        assert((ss1 + ss2).drop_last() =~= ss1 + ss2.drop_last());
        assert((ss1 + ss2).last() == ss2.last());
    }
}

/// An empty block continues in the block it starts in and changes nothing.
pub proof fn lemma_block_empty(m: CtxModel, s: Stmt, open: NodeIx)
    requires
        s matches Stmt::Block(v) && v@.len() == 0,
    ensures
        m.convert_stmt(s, open) == (m, open),
{
    let v = s->Block_0;
    assert(m.convert_stmt(s, open) == m.convert_seq(v@, open));
    assert(m.convert_seq(v@, open) == (m, open));
}

/// A block of two statements lowers as the first statement, then the second
/// from the state and block where the first ends.
pub proof fn lemma_block_two(m: CtxModel, s: Stmt, a: &Stmt, b: &Stmt, open: NodeIx)
    requires
        s matches Stmt::Block(v) && v@ == seq![a, b],
    ensures
        m.convert_stmt(s, open) == m.convert_stmt(*a, open).0.convert_stmt(
            *b,
            m.convert_stmt(*a, open).1,
        ),
{
    let v = s->Block_0;
    let ss = seq![a, b];
    assert(v@ == ss);
    assert(ss.drop_last() =~= seq![a]);
    assert(seq![a].drop_last() =~= Seq::<&Stmt>::empty());
    assert(m.convert_seq(Seq::<&Stmt>::empty(), open) == (m, open));
    assert(m.convert_seq(seq![a], open) == m.convert_stmt(*a, open));
    let (m1, o1) = m.convert_stmt(*a, open);
    assert(m.convert_seq(ss, open) == m1.convert_stmt(*b, o1));
    assert(m.convert_stmt(s, open) == m.convert_seq(v@, open));
}

/// The update of a loop lowers as if appended to its body: a loop with body
/// `body` and update `u` is built exactly as a loop whose body is the block
/// `{ body; u }` and that has no update.
pub proof fn lemma_make_loop_update(m: CtxModel, body: &Stmt, u: &Stmt, blk: Stmt, open: NodeIx)
    requires
        blk matches Stmt::Block(v) && v@ == seq![body, u],
    ensures
        m.make_loop(*body, Some(u), open) == m.make_loop(blk, None, open),
{
    let (m1, h) = m.add_node();
    let (m2, start) = m1.add_node();
    lemma_block_two(m2, blk, body, u, start);
}

} // verus!
