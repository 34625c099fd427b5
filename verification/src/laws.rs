//! What the lowering of each construct produces, stated over its inputs and
//! results.
use vstd::prelude::*;
use crate::ast1::{is_atom, Expr, Name, Stmt};
use crate::graph::{has_edge, CfgEdge, NodeIx};
use crate::lemmas::{
    lemma_add_edge, lemma_add_node, lemma_add_stmt, lemma_convert_expr, lemma_convert_val,
    lemma_convert_vals, lemma_extends_trans, lemma_fresh, lemma_get_identifier,
    lemma_standalone_block, lemma_to_val,
};
use crate::model::{AssignValue, CtxModel};
use crate::prim::{PrimExprModel, PrimStmtModel, PrimVal, NUM_ONE};
use crate::reach::lemma_kept;

verus! {

/// The graph has an edge from `a` to `b` with weight `w`.
pub open spec fn has_edge_with(edges: Seq<CfgEdge>, a: NodeIx, b: NodeIx, w: Option<PrimVal>) -> bool {
    exists|i: int| 0 <= i < edges.len() && #[trigger] edges[i] == (a, b, w)
}

proof fn lemma_add_edge_with(m: CtxModel, a: NodeIx, b: NodeIx, w: Option<PrimVal>)
    ensures
        has_edge_with(m.add_edge(a, b, w).edges, a, b, w),
        has_edge(m.add_edge(a, b, w).edges, a, b),
{
    let e = m.add_edge(a, b, w).edges;
    assert(e[m.edges.len() as int] == (a, b, w));
}

proof fn lemma_edge_with_kept(mid: CtxModel, r: CtxModel, a: NodeIx, b: NodeIx, w: Option<PrimVal>)
    requires
        r.extends(mid),
        has_edge_with(mid.edges, a, b, w),
    ensures
        has_edge_with(r.edges, a, b, w),
{
    let i = choose|i: int| 0 <= i < mid.edges.len() && #[trigger] mid.edges[i] == (a, b, w);
    assert(r.edges[i] == mid.edges[i]);
}

/// Reading `a[i]` reads the value of `a` at the value of `i`: the map operand
/// comes first, lowered first, and the index second, lowered after it.
pub proof fn lemma_index_read(m: CtxModel, e: Expr, open: NodeIx)
    requires
        e is Index,
    ensures
        m.convert_expr(e, open).1 == PrimExprModel::Index(
            m.convert_val(*e->Index_0, open).1,
            m.convert_val(*e->Index_0, open).0.convert_val(*e->Index_1, open).1,
        ),
        m.convert_expr(e, open).0 == m.convert_val(*e->Index_0, open).0.convert_val(
            *e->Index_1,
            open,
        ).0,
{
}

/// Reading `a[i]` where `a` and `i` are variables that already have
/// identifiers appends nothing and reads the map `a` at the index `i`.
pub proof fn lemma_index_read_vars(m: CtxModel, e: Expr, a: Name, i: Name, open: NodeIx)
    requires
        e is Index,
        *e->Index_0 == Expr::Var(a),
        *e->Index_1 == Expr::Var(i),
        m.names.contains_key(a),
        m.names.contains_key(i),
    ensures
        m.convert_expr(e, open) == (
            m,
            PrimExprModel::Index(PrimVal::Var(m.names[a]), PrimVal::Var(m.names[i])),
        ),
{
    assert(m.convert_val(Expr::Var(a), open) == (m, PrimVal::Var(m.names[a])));
    assert(m.convert_val(Expr::Var(i), open) == (m, PrimVal::Var(m.names[i])));
}

/// The values of a sequence of expressions keep its order: the `k`-th value is
/// the value of the `k`-th expression, lowered after the ones before it.
pub proof fn lemma_convert_vals_order(m: CtxModel, es: Seq<&Expr>, open: NodeIx, k: int)
    requires
        0 <= k < es.len(),
    ensures
        m.convert_vals(es, open).1.len() == es.len(),
        m.convert_vals(es, open).1[k] == m.convert_vals(es.take(k), open).0.convert_val(
            *es[k],
            open,
        ).1,
    decreases es.len(),
{
    let (m1, vs) = m.convert_vals(es.drop_last(), open);
    if k == es.len() - 1 {
        assert(es.take(k) =~= es.drop_last());
        if k > 0 {
            lemma_convert_vals_order(m, es.drop_last(), open, k - 1);
        } else {
            assert(vs.len() == 0);
        }
    } else {
        lemma_convert_vals_order(m, es.drop_last(), open, k);
        assert(es.drop_last().take(k) =~= es.take(k));
        assert(es.drop_last()[k] == es[k]);
    }
}

/// Lowering `print e0, e1, ...` appends, at the end of its block, one print
/// statement whose `k`-th value is the value of `ek`, lowered after the ones
/// before it; a variable that already has an identifier prints as that
/// identifier; the output target, if any, is the value of its expression,
/// lowered after them. The code continues in the same block.
pub proof fn lemma_print_values(m: CtxModel, s: Stmt, open: NodeIx)
    requires
        s is Print,
        open < m.blocks.len(),
    ensures
        ({
            let es = s->Print_0@;
            let (r, next) = m.convert_stmt(s, open);
            &&& next == open
            &&& r.blocks[open as int].len() > 0
            &&& r.blocks[open as int].last() matches PrimStmtModel::Print(vals, out_v) && {
                &&& out_v == match s->Print_1 {
                    Some(x) => Some(m.convert_vals(es, open).0.convert_val(*x, open).1),
                    None => None,
                }
                &&& vals.len() == es.len()
                &&& forall|k: int|
                    0 <= k < es.len() ==> #[trigger] vals[k] == m.convert_vals(
                        es.take(k),
                        open,
                    ).0.convert_val(*es[k], open).1
                &&& forall|k: int, x: Name|
                    #![trigger vals[k], m.names.contains_key(x)]
                    0 <= k < es.len() && *es[k] == Expr::Var(x) && m.names.contains_key(x)
                        ==> vals[k] == PrimVal::Var(m.names[x])
            }
        }),
{
    let es = s->Print_0@;
    let out = s->Print_1;
    lemma_convert_vals(m, es, open);
    let (m1, vals) = m.convert_vals(es, open);
    let (m2, out_v) = match out {
        Some(x) => {
            let (ma, v) = m1.convert_val(*x, open);
            (ma, Some(v))
        },
        None => (m1, None),
    };
    match out {
        Some(x) => lemma_convert_val(m1, *x, open),
        None => {},
    }
    let p = PrimStmtModel::Print(vals, out_v);
    assert(m.convert_stmt(s, open) == (m2.add_stmt(open, p), open));
    assert(m2.add_stmt(open, p).blocks[open as int] == m2.blocks[open as int].push(p));
    assert forall|k: int| 0 <= k < es.len() implies #[trigger] vals[k] == m.convert_vals(
        es.take(k),
        open,
    ).0.convert_val(*es[k], open).1 by {
        lemma_convert_vals_order(m, es, open, k);
    }
    assert forall|k: int, x: Name|
        #![trigger vals[k], m.names.contains_key(x)]
        0 <= k < es.len() && *es[k] == Expr::Var(x) && m.names.contains_key(x) implies vals[k]
        == PrimVal::Var(m.names[x]) by {
        lemma_convert_vals_order(m, es, open, k);
        lemma_convert_vals(m, es.take(k), open);
        let mk = m.convert_vals(es.take(k), open).0;
        assert(mk.names.contains_key(x) && mk.names[x] == m.names[x]);
        assert(mk.convert_val(Expr::Var(x), open) == (mk, PrimVal::Var(mk.names[x])));
    }
}

/// The value of an indexed assignment, plain or combined with an operator, is
/// the cell it stores into: the statement it appends last stores into map
/// copy `a` at index `i`, and the result is `a[i]`. The map copy is a fresh
/// variable: no name had it before.
pub proof fn lemma_do_assign_cell(m: CtxModel, arr: Expr, ix: Expr, value: AssignValue, open: NodeIx)
    requires
        m.wf(),
        m.do_assign(arr, ix, value, open).0.fits(),
        open < m.blocks.len(),
    ensures
        ({
            let (r, res) = m.do_assign(arr, ix, value, open);
            &&& r.blocks[open as int].len() > 0
            &&& r.blocks[open as int].last() matches PrimStmtModel::AsgnIndex(a, i, _) && {
                &&& res == PrimExprModel::Index(PrimVal::Var(a), i)
                &&& forall|k: Name| #[trigger] m.names.contains_key(k) ==> m.names[k] != a
            }
        }),
{
    crate::lemmas::lemma_do_assign(m, arr, ix, value, open);
    lemma_convert_expr(m, arr, open);
    let (m1, arr_e) = m.convert_expr(arr, open);
    lemma_fresh(m1);
    let (m2, arr_id) = m1.fresh();
    let m3 = m2.add_stmt(open, PrimStmtModel::AsgnVar(arr_id, arr_e));
    lemma_add_stmt(m2, open, PrimStmtModel::AsgnVar(arr_id, arr_e));
    lemma_convert_val(m3, ix, open);
    let (m4, ix_v) = m3.convert_val(ix, open);
    let arr_v = PrimVal::Var(arr_id);
    match value {
        AssignValue::Expr(to) => {
            lemma_convert_expr(m4, *to, open);
        },
        AssignValue::Op(op, to) => {
            lemma_convert_val(m4, *to, open);
            let m5a = m4.convert_val(*to, open).0;
            lemma_to_val(m5a, PrimExprModel::Index(arr_v, ix_v), open);
        },
    }
    let (m5, to_e) = match value {
        AssignValue::Expr(to) => m4.convert_expr(*to, open),
        AssignValue::Op(op, to) => {
            let (m5a, to_v) = m4.convert_val(*to, open);
            let (m5b, cell) = m5a.to_val(PrimExprModel::Index(arr_v, ix_v), open);
            (m5b, PrimExprModel::NumBinop(op, cell, to_v))
        },
    };
    let st = PrimStmtModel::AsgnIndex(arr_id, ix_v, to_e);
    let r = m5.add_stmt(open, st);
    assert(m.do_assign(arr, ix, value, open) == (r, PrimExprModel::Index(arr_v, ix_v)));
    assert(r.blocks[open as int] == m5.blocks[open as int].push(st));
    assert(arr_id.0 == m1.max);
}

/// The value of an assignment to a variable is the variable, and the
/// statement it appends last assigns that variable.
pub proof fn lemma_assign_var(m: CtxModel, e: Expr, x: Name, open: NodeIx)
    requires
        e is Assign || e is AssignOp,
        *(if e is Assign { e->Assign_0 } else { e->AssignOp_0 }) == Expr::Var(x),
        open < m.blocks.len(),
    ensures
        ({
            let (r, res) = m.convert_expr(e, open);
            &&& r.names.contains_key(x)
            &&& res == PrimExprModel::Val(PrimVal::Var(r.names[x]))
            &&& r.blocks[open as int].len() > 0
            &&& r.blocks[open as int].last() matches PrimStmtModel::AsgnVar(id, _) && id == r.names[x]
        }),
{
    match e {
        Expr::Assign(lhs, to) => {
            lemma_convert_expr(m, *to, open);
            let (m1, to_e) = m.convert_expr(*to, open);
            lemma_get_identifier(m1, x);
            let (m2, id) = m1.get_identifier(x);
            let st = PrimStmtModel::AsgnVar(id, to_e);
            assert(m2.add_stmt(open, st).blocks[open as int] == m2.blocks[open as int].push(st));
        },
        Expr::AssignOp(lhs, op, to) => {
            lemma_convert_val(m, *to, open);
            let (m1, to_v) = m.convert_val(*to, open);
            lemma_get_identifier(m1, x);
            let (m2, id) = m1.get_identifier(x);
            let st = PrimStmtModel::AsgnVar(id, PrimExprModel::NumBinop(op, PrimVal::Var(id), to_v));
            assert(m2.add_stmt(open, st).blocks[open as int] == m2.blocks[open as int].push(st));
        },
        _ => {},
    }
}

/// Lowering `if (c) t else f` branches from the block it starts in: an edge
/// guarded by the value of `c` enters the then-branch, whose last block has
/// an edge to the returned join block. Without an else-branch the block it
/// starts in also has an unguarded edge to the join block.
pub proof fn lemma_if_edges(m: CtxModel, s: Stmt, open: NodeIx)
    requires
        s is If,
        open < m.blocks.len(),
    ensures
        ({
            let (r, next) = m.convert_stmt(s, open);
            let (m1, c_val) = m.convert_val(*s->If_0, open);
            let t = m1.standalone_block(*s->If_1).1;
            &&& has_edge_with(r.edges, open, t.0, Some(c_val))
            &&& has_edge_with(r.edges, t.1, next, None)
            &&& s->If_2 is None ==> has_edge_with(r.edges, open, next, None)
            &&& r.fits() ==> t.0 == m.blocks.len() && next == m1.standalone_block(*s->If_1).0.blocks.len()
            &&& r.fits() && s->If_2 is Some ==> has_edge_with(r.edges, open, (next + 1) as NodeIx, None)
        }),
{
    let cond = *s->If_0;
    let tcase = *s->If_1;
    let fcase = s->If_2;
    let r = m.convert_stmt(s, open).0;
    lemma_convert_val(m, cond, open);
    let (m1, c_val) = m.convert_val(cond, open);
    lemma_standalone_block(m1, tcase);
    let (m2, t) = m1.standalone_block(tcase);
    lemma_add_node(m2);
    let (m3, next) = m2.add_node();
    lemma_add_edge(m3, open, t.0, Some(c_val));
    let m4a = m3.add_edge(open, t.0, Some(c_val));
    lemma_add_edge(m4a, t.1, next, None);
    let m4 = m4a.add_edge(t.1, next, None);
    lemma_add_edge_with(m3, open, t.0, Some(c_val));
    lemma_add_edge_with(m4a, t.1, next, None);
    match fcase {
        Some(fc) => {
            lemma_standalone_block(m4, *fc);
            let (m5, f) = m4.standalone_block(*fc);
            lemma_add_edge(m5, open, f.0, None);
            let m6a = m5.add_edge(open, f.0, None);
            lemma_add_edge(m6a, f.1, next, None);
            assert(r == m6a.add_edge(f.1, next, None));
            lemma_extends_trans(m5, m6a, r);
            lemma_extends_trans(m4, m5, r);
            lemma_add_edge_with(m5, open, f.0, None);
            lemma_edge_with_kept(m6a, r, open, f.0, None);
            if r.fits() {
                lemma_extends_trans(m3, m4a, r);
                lemma_extends_trans(m3, m4, r);
                lemma_extends_trans(m3, m5, r);
                assert(m5.fits());
                assert(f.0 == m4.blocks.len());
            }
        },
        None => {
            assert(r == m4.add_edge(open, next, None));
            lemma_add_edge(m4, open, next, None);
            lemma_add_edge_with(m4, open, next, None);
        },
    }
    lemma_extends_trans(m4a, m4, r);
    lemma_edge_with_kept(m4a, r, open, t.0, Some(c_val));
    lemma_edge_with_kept(m4, r, t.1, next, None);
}

/// In a loop skeleton the header is the first new node, the body starts at
/// the next one as a standalone block, and its code, followed by the update,
/// continues in the returned body end, from which an edge leads back to the
/// header.
pub proof fn lemma_make_loop_body(m: CtxModel, body: Stmt, update: Option<&Stmt>, open: NodeIx)
    requires
        open < m.blocks.len(),
        m.make_loop(body, update, open).0.fits(),
    ensures
        ({
            let (r, l) = m.make_loop(body, update, open);
            let (ma, sm) = m.add_node().0.standalone_block(body);
            &&& l.0 == m.blocks.len()
            &&& l.1 == sm.0
            &&& l.2 == match update {
                Some(u) => ma.convert_stmt(*u, sm.1).1,
                None => sm.1,
            }
            &&& has_edge_with(r.edges, open, l.0, None)
            &&& has_edge_with(r.edges, l.2, l.0, None)
        }),
{
    crate::lemmas::lemma_make_loop(m, body, update, open);
    crate::reach::lemma_reach_make_loop(m, body, update, open);
    lemma_add_node(m);
    let (m1, h) = m.add_node();
    let (ma, sm) = m1.standalone_block(body);
    let (m2, b) = match update {
        Some(u) => {
            let (mb, end) = ma.convert_stmt(*u, sm.1);
            (mb, (sm.0, end))
        },
        None => (ma, sm),
    };
    let (m3, f) = m2.add_node();
    let m4 = m3.add_edge(open, h, None);
    let r = m4.add_edge(b.1, h, None);
    lemma_add_edge_with(m3, open, h, None);
    lemma_add_edge_with(m4, b.1, h, None);
    assert(r.extends(m4)) by {
        assert forall|i: int, j: int| 0 <= i < m4.blocks.len() && 0 <= j < m4.blocks[i].len() implies (
        #[trigger] r.blocks[i][j]) == m4.blocks[i][j] by {}
    }
    lemma_edge_with_kept(m4, r, open, h, None);
}

/// The value of a literal, or of a variable through its identifier.
pub open spec fn atom_value<'b>(m: CtxModel<'b>, e: Expr<'_, 'b>) -> PrimVal<'b> {
    match e {
        Expr::NumLit(n) => PrimVal::NumLit(n),
        Expr::StrLit(s) => PrimVal::StrLit(s),
        Expr::Var(x) => PrimVal::Var(m.names[x]),
        _ => PrimVal::NumLit(0),
    }
}

/// A literal, or a variable that already has an identifier.
pub open spec fn known_atom(m: CtxModel, e: Expr) -> bool {
    is_atom(e) && (e matches Expr::Var(x) ==> m.names.contains_key(x))
}

/// A literal or a known variable lowers, with no change, to its value.
pub proof fn lemma_known_atom(m: CtxModel, e: Expr, open: NodeIx)
    requires
        known_atom(m, e),
    ensures
        m.convert_expr(e, open) == (m, PrimExprModel::Val(atom_value(m, e))),
        m.convert_val(e, open) == (m, atom_value(m, e)),
{
}

/// An operator applied to literals and known variables appends nothing and
/// applies the operator to their values, operands in order.
pub proof fn lemma_operator_on_atoms(m: CtxModel, e: Expr, open: NodeIx)
    requires
        e matches Expr::Unop(_, a) ==> known_atom(m, *a),
        e matches Expr::Binop(_, a, b) ==> known_atom(m, *a) && known_atom(m, *b),
        e matches Expr::Index(a, b) ==> known_atom(m, *a) && known_atom(m, *b),
        e is Unop || e is Binop || e is Index,
    ensures
        m.convert_expr(e, open) == (
            m,
            match e {
                Expr::Unop(Ok(o), a) => PrimExprModel::NumUnop(o, atom_value(m, *a)),
                Expr::Unop(Err(o), a) => PrimExprModel::StrUnop(o, atom_value(m, *a)),
                Expr::Binop(Ok(o), a, b) => PrimExprModel::NumBinop(
                    o,
                    atom_value(m, *a),
                    atom_value(m, *b),
                ),
                Expr::Binop(Err(o), a, b) => PrimExprModel::StrBinop(
                    o,
                    atom_value(m, *a),
                    atom_value(m, *b),
                ),
                Expr::Index(a, b) => PrimExprModel::Index(atom_value(m, *a), atom_value(m, *b)),
                _ => PrimExprModel::Val(PrimVal::NumLit(0)),
            },
        ),
{
    match e {
        Expr::Unop(_, a) => lemma_known_atom(m, *a, open),
        Expr::Binop(_, a, b) => {
            lemma_known_atom(m, *a, open);
            lemma_known_atom(m, *b, open);
        },
        Expr::Index(a, b) => {
            lemma_known_atom(m, *a, open);
            lemma_known_atom(m, *b, open);
        },
        _ => {},
    }
}

/// `x = v` and `x op= v`, with `x` known and `v` a literal or known variable,
/// append one statement assigning to `x` the value of `v`, or `x op v`; the
/// value of the assignment is `x`.
pub proof fn lemma_assign_atoms(m: CtxModel, e: Expr, x: Name, open: NodeIx)
    requires
        (e matches Expr::Assign(l, v) && *l == Expr::Var(x) && known_atom(m, *v)) || (
        e matches Expr::AssignOp(l, _, v) && *l == Expr::Var(x) && known_atom(m, *v)),
        m.names.contains_key(x),
    ensures
        m.convert_expr(e, open) == (
            m.add_stmt(
                open,
                PrimStmtModel::AsgnVar(
                    m.names[x],
                    match e {
                        Expr::Assign(_, v) => PrimExprModel::Val(atom_value(m, *v)),
                        Expr::AssignOp(_, op, v) => PrimExprModel::NumBinop(
                            op,
                            PrimVal::Var(m.names[x]),
                            atom_value(m, *v),
                        ),
                        _ => PrimExprModel::Val(PrimVal::NumLit(0)),
                    },
                ),
            ),
            PrimExprModel::Val(PrimVal::Var(m.names[x])),
        ),
{
    match e {
        Expr::Assign(_, v) => lemma_known_atom(m, *v, open),
        Expr::AssignOp(_, _, v) => lemma_known_atom(m, *v, open),
        _ => {},
    }
}

/// `a[i] = v` with `a` known and `i`, `v` literals or known variables: the
/// map goes into a fresh copy `c = (max, 0)`, then `c[i] = v` is stored; the
/// value is the cell `c[i]`. With `a[i] op= v` the cell is first read into
/// the next fresh variable `d`, and `c[i] = d op v` is stored.
pub proof fn lemma_index_assign_atoms(
    m: CtxModel,
    arr: Expr,
    ix: Expr,
    value: AssignValue,
    open: NodeIx,
)
    requires
        arr matches Expr::Var(a) && m.names.contains_key(a),
        known_atom(m, ix),
        value matches AssignValue::Expr(v) ==> known_atom(m, *v),
        value matches AssignValue::Op(_, v) ==> known_atom(m, *v),
        open < m.blocks.len(),
        m.do_assign(arr, ix, value, open).0.fits(),
    ensures
        ({
            let (r, res) = m.do_assign(arr, ix, value, open);
            let c = (m.max as u32, 0u32);
            let d = ((m.max + 1) as u32, 0u32);
            let iv = atom_value(m, ix);
            &&& res == PrimExprModel::Index(PrimVal::Var(c), iv)
            &&& r.names == m.names
            &&& r.edges == m.edges
            &&& r.blocks.len() == m.blocks.len()
            &&& r.blocks[open as int] == match value {
                AssignValue::Expr(v) => m.blocks[open as int] + seq![
                    PrimStmtModel::AsgnVar(c, PrimExprModel::Val(atom_value(m, arr))),
                    PrimStmtModel::AsgnIndex(c, iv, PrimExprModel::Val(atom_value(m, *v))),
                ],
                AssignValue::Op(op, v) => m.blocks[open as int] + seq![
                    PrimStmtModel::AsgnVar(c, PrimExprModel::Val(atom_value(m, arr))),
                    PrimStmtModel::AsgnVar(d, PrimExprModel::Index(PrimVal::Var(c), iv)),
                    PrimStmtModel::AsgnIndex(
                        c,
                        iv,
                        PrimExprModel::NumBinop(op, PrimVal::Var(d), atom_value(m, *v)),
                    ),
                ],
            }
        }),
{
    lemma_known_atom(m, arr, open);
    let (m2, c) = m.fresh();
    let s1 = PrimStmtModel::AsgnVar(c, PrimExprModel::Val(atom_value(m, arr)));
    let m3 = m2.add_stmt(open, s1);
    assert(known_atom(m3, ix));
    assert(atom_value(m3, ix) == atom_value(m, ix));
    lemma_known_atom(m3, ix, open);
    let iv = atom_value(m, ix);
    match value {
        AssignValue::Expr(v) => {
            assert(atom_value(m3, *v) == atom_value(m, *v));
            lemma_known_atom(m3, *v, open);
            let s2 = PrimStmtModel::AsgnIndex(c, iv, PrimExprModel::Val(atom_value(m, *v)));
            let r = m3.add_stmt(open, s2);
            assert(m.do_assign(arr, ix, value, open) == (r, PrimExprModel::Index(PrimVal::Var(c), iv)));
            assert(r.blocks[open as int] =~= m.blocks[open as int] + seq![s1, s2]);
        },
        AssignValue::Op(op, v) => {
            assert(atom_value(m3, *v) == atom_value(m, *v));
            lemma_known_atom(m3, *v, open);
            let (m4, d) = m3.fresh();
            let s2 = PrimStmtModel::AsgnVar(d, PrimExprModel::Index(PrimVal::Var(c), iv));
            let m5 = m4.add_stmt(open, s2);
            let s3 = PrimStmtModel::AsgnIndex(
                c,
                iv,
                PrimExprModel::NumBinop(op, PrimVal::Var(d), atom_value(m, *v)),
            );
            let r = m5.add_stmt(open, s3);
            assert(m.do_assign(arr, ix, value, open) == (r, PrimExprModel::Index(PrimVal::Var(c), iv)));
            assert(r.blocks[open as int] =~= m.blocks[open as int] + seq![s1, s2, s3]);
        },
    }
}

/// A value that is not already a value goes into a fresh variable
/// `(max, 0)`, assigned at the end of the block; in a well-formed context no
/// name has that variable.
pub proof fn lemma_to_val_fresh(m: CtxModel, e: PrimExprModel, open: NodeIx)
    requires
        !(e is Val),
        m.wf(),
        m.fits(),
    ensures
        m.to_val(e, open) == (
            CtxModel { max: m.max + 1, ..m }.add_stmt(open, PrimStmtModel::AsgnVar((m.max as u32, 0u32), e)),
            PrimVal::Var((m.max as u32, 0u32)),
        ),
        forall|k: Name| #[trigger] m.names.contains_key(k) ==> m.names[k] != (m.max as u32, 0u32),
{
}

/// The guard of a loop header: the value of its condition, which for a
/// variable that already has an identifier is that identifier.
proof fn lemma_guard_var(m: CtxModel, m1: CtxModel, c: Expr, x: Name, h: NodeIx)
    requires
        m1.extends(m),
        c == Expr::Var(x),
        m.names.contains_key(x),
    ensures
        m1.convert_val(c, h) == (m1, PrimVal::Var(m.names[x])),
{
}

/// `while (c) body` entered from `open`: the header is the first new node and
/// is entered from `open`; an edge guarded by the value of `c` leads to the
/// body, which starts at the next node, and an unguarded edge to the footer,
/// the last new node, where the code that follows continues. The statements
/// computing the guard are in the header. A variable `c` with an identifier
/// guards by that identifier.
pub proof fn lemma_while_edges(m: CtxModel, s: Stmt, open: NodeIx)
    requires
        s is While,
        open < m.blocks.len(),
        m.convert_stmt(s, open).0.fits(),
    ensures
        ({
            let (r, next) = m.convert_stmt(s, open);
            let h = m.blocks.len() as NodeIx;
            let m1 = m.make_loop(*s->While_1, None, open).0;
            let g = m1.convert_val(*s->While_0, h).1;
            &&& next + 1 == r.blocks.len()
            &&& r.blocks[h as int] == m1.convert_val(*s->While_0, h).0.blocks[h as int]
            &&& has_edge_with(r.edges, open, h, None)
            &&& has_edge_with(r.edges, h, (h + 1) as NodeIx, Some(g))
            &&& has_edge_with(r.edges, h, next, None)
            &&& forall|x: Name|
                *s->While_0 == Expr::Var(x) && #[trigger] m.names.contains_key(x) ==> g
                    == PrimVal::Var(m.names[x])
        }),
{
    let cond = *s->While_0;
    let body = *s->While_1;
    let r = m.convert_stmt(s, open).0;
    crate::lemmas::lemma_make_loop(m, body, None, open);
    let (m1, l) = m.make_loop(body, None, open);
    lemma_convert_val(m1, cond, l.0);
    let (m2, g) = m1.convert_val(cond, l.0);
    lemma_add_edge(m2, l.0, l.1, Some(g));
    let m3 = m2.add_edge(l.0, l.1, Some(g));
    lemma_add_edge(m3, l.0, l.3, None);
    lemma_extends_trans(m2, m3, r);
    lemma_extends_trans(m1, m2, r);
    lemma_make_loop_body(m, body, None, open);
    crate::reach::lemma_reach_make_loop(m, body, None, open);
    lemma_edge_with_kept(m1, r, open, l.0, None);
    lemma_add_edge_with(m2, l.0, l.1, Some(g));
    lemma_edge_with_kept(m3, r, l.0, l.1, Some(g));
    lemma_add_edge_with(m3, l.0, l.3, None);
    assert forall|x: Name| cond == Expr::Var(x) && #[trigger] m.names.contains_key(x) implies g
        == PrimVal::Var(m.names[x]) by {
        lemma_guard_var(m, m1, cond, x, l.0);
    }
}

/// `for (init; c; update) body` entered from `open`: after `init` (if any),
/// the header is the first new node, entered from where `init` ends; an edge
/// guarded by the value of `c`, or by the number 1 when there is no `c`,
/// leads to the body at the next node, and an unguarded edge to the footer,
/// the last new node, where the code that follows continues. The statements
/// computing the guard are in the header.
pub proof fn lemma_for_edges(m: CtxModel, s: Stmt, open: NodeIx)
    requires
        s is For,
        open < m.blocks.len(),
        m.convert_stmt(s, open).0.fits(),
    ensures
        ({
            let (r, next) = m.convert_stmt(s, open);
            let (mi, init_end) = match s->For_0 {
                Some(i) => m.convert_stmt(*i, open),
                None => (m, open),
            };
            let h = mi.blocks.len() as NodeIx;
            let m1 = mi.make_loop(*s->For_3, s->For_2, init_end).0;
            let g = match s->For_1 {
                Some(c) => m1.convert_val(*c, h).1,
                None => PrimVal::NumLit(NUM_ONE),
            };
            &&& next + 1 == r.blocks.len()
            &&& r.blocks[h as int] == match s->For_1 {
                Some(c) => m1.convert_val(*c, h).0.blocks[h as int],
                None => m1.blocks[h as int],
            }
            &&& has_edge_with(r.edges, init_end, h, None)
            &&& has_edge_with(r.edges, h, (h + 1) as NodeIx, Some(g))
            &&& has_edge_with(r.edges, h, next, None)
            &&& forall|x: Name|
                s->For_1 == Some(&Expr::Var(x)) && #[trigger] mi.names.contains_key(x) ==> g
                    == PrimVal::Var(mi.names[x])
        }),
{
    let init = s->For_0;
    let cond = s->For_1;
    let update = s->For_2;
    let body = *s->For_3;
    let r = m.convert_stmt(s, open).0;
    let (mi, init_end) = match init {
        Some(i) => m.convert_stmt(*i, open),
        None => (m, open),
    };
    match init {
        Some(i) => {
            crate::lemmas::lemma_convert_stmt(m, *i, open);
        },
        None => {},
    }
    crate::lemmas::lemma_make_loop(mi, body, update, init_end);
    let (m1, l) = mi.make_loop(body, update, init_end);
    let (m2, g) = match cond {
        Some(c) => m1.convert_val(*c, l.0),
        None => (m1, PrimVal::NumLit(NUM_ONE)),
    };
    match cond {
        Some(c) => lemma_convert_val(m1, *c, l.0),
        None => {},
    }
    lemma_add_edge(m2, l.0, l.1, Some(g));
    let m3 = m2.add_edge(l.0, l.1, Some(g));
    lemma_add_edge(m3, l.0, l.3, None);
    assert(r == m3.add_edge(l.0, l.3, None));
    lemma_extends_trans(m2, m3, r);
    lemma_extends_trans(m1, m2, r);
    assert(mi.fits());
    lemma_make_loop_body(mi, body, update, init_end);
    crate::reach::lemma_reach_make_loop(mi, body, update, init_end);
    lemma_edge_with_kept(m1, r, init_end, l.0, None);
    lemma_add_edge_with(m2, l.0, l.1, Some(g));
    lemma_edge_with_kept(m3, r, l.0, l.1, Some(g));
    lemma_add_edge_with(m3, l.0, l.3, None);
    assert forall|x: Name| cond == Some(&Expr::Var(x)) && #[trigger] mi.names.contains_key(x) implies g
        == PrimVal::Var(mi.names[x]) by {
        lemma_guard_var(mi, m1, Expr::Var(x), x, l.0);
    }
}

/// `for (k in a) body` entered from `open`: the header is the first new node,
/// entered from `open`, and starts by asking whether the iterator `it` over
/// `a` has a next key; an edge guarded by that answer leads to the body at
/// the next node, which starts by assigning the next key to `k`, and an
/// unguarded edge leads to the footer, the last new node, where the code
/// that follows continues.
pub proof fn lemma_foreach_edges(m: CtxModel, s: Stmt, open: NodeIx)
    requires
        s is ForEach,
        open < m.blocks.len(),
        m.convert_stmt(s, open).0.fits(),
    ensures
        ({
            let (r, next) = m.convert_stmt(s, open);
            let c = m.blocks.len() as NodeIx;
            let b = (m.blocks.len() + 1) as NodeIx;
            &&& next + 1 == r.blocks.len()
            &&& has_edge_with(r.edges, open, c, None)
            &&& has_edge_with(r.edges, c, next, None)
            &&& r.names.contains_key(s->ForEach_0)
            &&& exists|it: PrimVal, hv: crate::prim::Ident|
                #![auto]
                {
                    &&& r.blocks[c as int].len() > 0
                    &&& r.blocks[c as int][0] == PrimStmtModel::AsgnVar(hv, PrimExprModel::HasNext(it))
                    &&& r.blocks[b as int].len() > 0
                    &&& r.blocks[b as int][0] == PrimStmtModel::AsgnVar(
                        r.names[s->ForEach_0],
                        PrimExprModel::Next(it),
                    )
                    &&& has_edge_with(r.edges, c, b, Some(PrimVal::Var(hv)))
                }
        }),
{
    let name = s->ForEach_0;
    let array = *s->ForEach_1;
    let body = *s->ForEach_2;
    let r = m.convert_stmt(s, open).0;
    lemma_get_identifier(m, name);
    let (m1, v_id) = m.get_identifier(name);
    lemma_convert_val(m1, array, open);
    let (m2, array_val) = m1.convert_val(array, open);
    lemma_to_val(m2, PrimExprModel::IterBegin(array_val), open);
    let (m3, array_iter) = m2.to_val(PrimExprModel::IterBegin(array_val), open);
    lemma_add_node(m3);
    let (m4, cond_block) = m3.add_node();
    lemma_to_val(m4, PrimExprModel::HasNext(array_iter), cond_block);
    let (m5, cond_v) = m4.to_val(PrimExprModel::HasNext(array_iter), cond_block);
    lemma_add_edge(m5, open, cond_block, None);
    let m6 = m5.add_edge(open, cond_block, None);
    lemma_add_node(m6);
    let (m7, body_start) = m6.add_node();
    let st = PrimStmtModel::AsgnVar(v_id, PrimExprModel::Next(array_iter));
    lemma_add_stmt(m7, body_start, st);
    let m8 = m7.add_stmt(body_start, st);
    crate::lemmas::lemma_convert_stmt(m8, body, body_start);
    let (m9, body_end) = m8.convert_stmt(body, body_start);
    lemma_add_edge(m9, cond_block, body_start, Some(cond_v));
    let m10a = m9.add_edge(cond_block, body_start, Some(cond_v));
    lemma_add_edge(m10a, body_end, cond_block, None);
    let m10 = m10a.add_edge(body_end, cond_block, None);
    lemma_add_node(m10);
    let (m11, footer) = m10.add_node();
    lemma_add_edge(m11, cond_block, footer, None);
    assert(r == m11.add_edge(cond_block, footer, None));
    lemma_extends_trans(m10, m11, r);
    lemma_extends_trans(m10a, m10, r);
    lemma_extends_trans(m9, m10a, r);
    lemma_extends_trans(m8, m9, r);
    lemma_extends_trans(m7, m8, r);
    lemma_extends_trans(m6, m7, r);
    lemma_extends_trans(m5, m6, r);
    lemma_extends_trans(m4, m5, r);
    lemma_extends_trans(m1, m4, r);
    lemma_add_edge_with(m5, open, cond_block, None);
    lemma_edge_with_kept(m6, r, open, cond_block, None);
    lemma_add_edge_with(m9, cond_block, body_start, Some(cond_v));
    lemma_edge_with_kept(m10a, r, cond_block, body_start, Some(cond_v));
    lemma_add_edge_with(m11, cond_block, footer, None);
    // the header's only statement asks the iterator for a next key
    assert(m4.blocks[cond_block as int].len() == 0);
    assert(m5.blocks[cond_block as int] == seq![
        PrimStmtModel::AsgnVar(cond_v->Var_0, PrimExprModel::HasNext(array_iter)),
    ]);
    assert(m8.blocks[body_start as int] == seq![st]);
    assert(r.blocks[cond_block as int][0] == m5.blocks[cond_block as int][0]);
    assert(r.blocks[body_start as int][0] == m8.blocks[body_start as int][0]);
    assert(r.names[name] == v_id);
    let hv = cond_v->Var_0;
    assert(has_edge_with(r.edges, cond_block, body_start, Some(PrimVal::Var(hv))));
}

} // verus!
