//! Every block of a lowered statement leads to the block where the code that
//! follows the statement continues: a lowered statement has a single exit.
use vstd::prelude::*;
use crate::ast1::{opt_stmt_size, stmt_size, stmts_size, Expr, Name, Stmt};
use crate::graph::{has_edge, lemma_reach_refl, lemma_reach_step, lemma_reach_trans, reachable, NodeIx};
use crate::lemmas::{
    lemma_add_edge, lemma_add_node, lemma_add_stmt, lemma_convert_seq, lemma_convert_stmt,
    lemma_convert_val, lemma_extends_trans, lemma_get_identifier, lemma_make_loop,
    lemma_standalone_block, lemma_to_val,
};
use crate::model::CtxModel;
use crate::prim::{PrimExprModel, PrimStmtModel, PrimVal, NUM_ONE};
use crate::reach::{lemma_add_edge_has, lemma_kept, lemma_reach_stmt};

verus! {

/// Every node created between `m` and `r` reaches `to` in the graph of `r`.
pub open spec fn new_nodes_reach(r: CtxModel, m: CtxModel, to: NodeIx) -> bool {
    forall|v: NodeIx| m.blocks.len() <= v < r.blocks.len() ==> #[trigger] reachable(r.edges, v, to)
}

/// Every node of a statement's code leads to the block where the code that
/// follows continues.
pub proof fn lemma_exit_stmt(m: CtxModel, s: Stmt, open: NodeIx)
    requires
        open < m.blocks.len(),
        m.convert_stmt(s, open).0.fits(),
    ensures
        new_nodes_reach(m.convert_stmt(s, open).0, m, m.convert_stmt(s, open).1),
    decreases stmt_size(s), 2nat,
{
    let r = m.convert_stmt(s, open).0;
    let next = m.convert_stmt(s, open).1;
    lemma_convert_stmt(m, s, open);
    match s {
        Stmt::Block(ss) => {
            lemma_exit_seq(m, ss@, open);
        },
        Stmt::If(cond, tcase, fcase) => {
            lemma_exit_if(m, *cond, *tcase, fcase, open);
        },
        Stmt::For(init, cond, update, body) => {
            let (m1, init_end) = match init {
                Some(i) => m.convert_stmt(*i, open),
                None => (m, open),
            };
            match init {
                Some(i) => {
                    lemma_convert_stmt(m, *i, open);
                },
                None => {},
            }
            lemma_make_loop(m1, *body, update, init_end);
            let (m2, l) = m1.make_loop(*body, update, init_end);
            let (m3, cond_val) = match cond {
                Some(c) => m2.convert_val(*c, l.0),
                None => (m2, PrimVal::NumLit(NUM_ONE)),
            };
            match cond {
                Some(c) => lemma_convert_val(m2, *c, l.0),
                None => {},
            }
            lemma_add_edge(m3, l.0, l.1, Some(cond_val));
            let m4 = m3.add_edge(l.0, l.1, Some(cond_val));
            lemma_add_edge(m4, l.0, l.3, None);
            lemma_extends_trans(m3, m4, r);
            lemma_extends_trans(m2, m3, r);
            lemma_extends_trans(m1, m2, r);
            lemma_exit_make_loop(m1, *body, update, init_end);
            crate::reach::lemma_reach_make_loop(m1, *body, update, init_end);
            lemma_kept(m1, r);
            lemma_kept(m2, r);
            lemma_add_edge_has(m4, l.0, l.3, None);
            match init {
                Some(i) => {
                    lemma_exit_stmt(m, *i, open);
                },
                None => {},
            }
            lemma_loop_exit(m, m1, m2, r, init_end, l);
        },
        Stmt::While(cond, body) => {
            lemma_make_loop(m, *body, None, open);
            let (m1, l) = m.make_loop(*body, None, open);
            lemma_convert_val(m1, *cond, l.0);
            let (m2, cond_val) = m1.convert_val(*cond, l.0);
            lemma_add_edge(m2, l.0, l.1, Some(cond_val));
            let m3 = m2.add_edge(l.0, l.1, Some(cond_val));
            lemma_add_edge(m3, l.0, l.3, None);
            lemma_extends_trans(m2, m3, r);
            lemma_extends_trans(m1, m2, r);
            lemma_exit_make_loop(m, *body, None, open);
            crate::reach::lemma_reach_make_loop(m, *body, None, open);
            lemma_kept(m1, r);
            lemma_add_edge_has(m3, l.0, l.3, None);
            lemma_kept(m, r);
            lemma_loop_exit(m, m, m1, r, open, l);
        },
        Stmt::ForEach(name, array, body) => {
            lemma_exit_foreach(m, name, *array, *body, open);
        },
        _ => {},
    }
}

/// A loop whose header reaches its footer: the nodes before the loop lead
/// to the header, and so do the nodes of the body.
proof fn lemma_loop_exit(
    m: CtxModel,
    m1: CtxModel,
    m2: CtxModel,
    r: CtxModel,
    init_end: NodeIx,
    l: (NodeIx, NodeIx, NodeIx, NodeIx),
)
    requires
        new_nodes_reach(m1, m, init_end),
        forall|a: NodeIx, b: NodeIx| #[trigger] reachable(m1.edges, a, b) ==> reachable(r.edges, a, b),
        forall|a: NodeIx, b: NodeIx| #[trigger] has_edge(m2.edges, a, b) ==> has_edge(r.edges, a, b),
        forall|a: NodeIx, b: NodeIx| #[trigger] reachable(m2.edges, a, b) ==> reachable(r.edges, a, b),
        m.blocks.len() <= m1.blocks.len(),
        l.0 == m1.blocks.len(),
        l.1 == m1.blocks.len() + 1,
        l.3 + 1 == m2.blocks.len(),
        m2.blocks.len() == r.blocks.len(),
        has_edge(m2.edges, init_end, l.0),
        forall|v: NodeIx| l.1 <= v < l.3 ==> #[trigger] reachable(m2.edges, v, l.0),
        has_edge(r.edges, l.0, l.3),
    ensures
        new_nodes_reach(r, m, l.3),
{
    lemma_reach_refl(r.edges, l.0);
    lemma_reach_step(r.edges, l.0, l.0, l.3);
    lemma_reach_refl(r.edges, init_end);
    lemma_reach_step(r.edges, init_end, init_end, l.0);
    lemma_reach_trans(r.edges, init_end, l.0, l.3);
    assert forall|v: NodeIx| m.blocks.len() <= v < r.blocks.len() implies #[trigger] reachable(
        r.edges,
        v,
        l.3,
    ) by {
        if v < m1.blocks.len() {
            assert(reachable(m1.edges, v, init_end));
            lemma_reach_trans(r.edges, v, init_end, l.3);
        } else if v == l.0 {
        } else if v == l.3 {
            lemma_reach_refl(r.edges, l.3);
        } else {
            assert(reachable(m2.edges, v, l.0));
            lemma_reach_trans(r.edges, v, l.0, l.3);
        }
    }
}

/// The statements of a block, one after the other.
pub proof fn lemma_exit_seq(m: CtxModel, ss: Seq<&Stmt>, open: NodeIx)
    requires
        open < m.blocks.len(),
        m.convert_seq(ss, open).0.fits(),
    ensures
        new_nodes_reach(m.convert_seq(ss, open).0, m, m.convert_seq(ss, open).1),
    decreases stmts_size(ss), 5nat,
{
    let r = m.convert_seq(ss, open).0;
    if ss.len() > 0 {
        assert(stmt_size(*ss.last()) >= 1);
        lemma_convert_seq(m, ss.drop_last(), open);
        let (m1, o1) = m.convert_seq(ss.drop_last(), open);
        lemma_convert_stmt(m1, *ss.last(), o1);
        let next = m1.convert_stmt(*ss.last(), o1).1;
        lemma_exit_seq(m, ss.drop_last(), open);
        lemma_exit_stmt(m1, *ss.last(), o1);
        lemma_reach_stmt(m1, *ss.last(), o1);
        lemma_kept(m1, r);
        assert forall|v: NodeIx| m.blocks.len() <= v < r.blocks.len() implies #[trigger] reachable(
            r.edges,
            v,
            next,
        ) by {
            if v < m1.blocks.len() {
                assert(reachable(m1.edges, v, o1));
                lemma_reach_trans(r.edges, v, o1, next);
            }
        }
    }
}

/// Every node of a standalone block, its first node included, leads to the
/// block where its code continues.
pub proof fn lemma_exit_standalone(m: CtxModel, s: Stmt)
    requires
        m.standalone_block(s).0.fits(),
    ensures
        new_nodes_reach(m.standalone_block(s).0, m, m.standalone_block(s).1.1),
    decreases stmt_size(s), 3nat,
{
    lemma_standalone_block(m, s);
    lemma_add_node(m);
    let (m1, start) = m.add_node();
    lemma_convert_stmt(m1, s, start);
    lemma_exit_stmt(m1, s, start);
    lemma_reach_stmt(m1, s, start);
}

/// In a loop skeleton the body's last block has an edge back to the header,
/// and every node of the body and update leads to the header.
pub proof fn lemma_exit_make_loop(m: CtxModel, body: Stmt, update: Option<&Stmt>, open: NodeIx)
    requires
        open < m.blocks.len(),
        m.make_loop(body, update, open).0.fits(),
    ensures
        ({
            let (r, l) = m.make_loop(body, update, open);
            &&& has_edge(r.edges, l.2, l.0)
            &&& forall|v: NodeIx| l.1 <= v < l.3 ==> #[trigger] reachable(r.edges, v, l.0)
        }),
    decreases stmt_size(body) + opt_stmt_size(update), 4nat,
{
    assert(stmt_size(body) >= 1);
    lemma_make_loop(m, body, update, open);
    crate::reach::lemma_reach_make_loop(m, body, update, open);
    lemma_add_node(m);
    let (m1, h) = m.add_node();
    lemma_standalone_block(m1, body);
    let (ma, sm) = m1.standalone_block(body);
    let (m2, b) = match update {
        Some(u) => {
            let (mb, end) = ma.convert_stmt(*u, sm.1);
            (mb, (sm.0, end))
        },
        None => (ma, sm),
    };
    match update {
        Some(u) => {
            lemma_convert_stmt(ma, *u, sm.1);
        },
        None => {},
    }
    lemma_add_node(m2);
    let (m3, f) = m2.add_node();
    lemma_add_edge(m3, open, h, None);
    let m4 = m3.add_edge(open, h, None);
    lemma_add_edge(m4, b.1, h, None);
    let r = m4.add_edge(b.1, h, None);
    lemma_extends_trans(m3, m4, r);
    lemma_extends_trans(m2, m3, r);
    lemma_extends_trans(ma, m2, r);
    lemma_add_edge_has(m4, b.1, h, None);
    lemma_exit_standalone(m1, body);
    lemma_kept(ma, r);
    lemma_reach_refl(r.edges, b.1);
    lemma_reach_step(r.edges, b.1, b.1, h);
    match update {
        Some(u) => {
            lemma_exit_stmt(ma, *u, sm.1);
            lemma_reach_stmt(ma, *u, sm.1);
            lemma_kept(m2, r);
            assert(reachable(r.edges, sm.1, b.1));
            lemma_reach_trans(r.edges, sm.1, b.1, h);
            assert forall|v: NodeIx| b.0 <= v < f implies #[trigger] reachable(r.edges, v, h) by {
                if v < ma.blocks.len() {
                    assert(reachable(ma.edges, v, sm.1));
                    lemma_reach_trans(r.edges, v, sm.1, h);
                } else {
                    assert(reachable(m2.edges, v, b.1));
                    lemma_reach_trans(r.edges, v, b.1, h);
                }
            }
        },
        None => {
            assert forall|v: NodeIx| b.0 <= v < f implies #[trigger] reachable(r.edges, v, h) by {
                assert(reachable(ma.edges, v, sm.1));
                lemma_reach_trans(r.edges, v, sm.1, h);
            }
        },
    }
}

/// An `if`: the nodes of both branches lead to the join block.
proof fn lemma_exit_if(m: CtxModel, cond: Expr, tcase: Stmt, fcase: Option<&Stmt>, open: NodeIx)
    requires
        open < m.blocks.len(),
        m.convert_stmt(Stmt::If(&cond, &tcase, fcase), open).0.fits(),
    ensures
        new_nodes_reach(
            m.convert_stmt(Stmt::If(&cond, &tcase, fcase), open).0,
            m,
            m.convert_stmt(Stmt::If(&cond, &tcase, fcase), open).1,
        ),
    decreases stmt_size(Stmt::If(&cond, &tcase, fcase)), 1nat,
{
    let s = Stmt::If(&cond, &tcase, fcase);
    let r = m.convert_stmt(s, open).0;
    lemma_convert_val(m, cond, open);
    let (m1, c_val) = m.convert_val(cond, open);
    lemma_standalone_block(m1, tcase);
    let (m2, t) = m1.standalone_block(tcase);
    lemma_add_node(m2);
    let (m3, next) = m2.add_node();
    lemma_add_edge(m3, open, t.0, Some(c_val));
    let m4a = m3.add_edge(open, t.0, Some(c_val));
    lemma_add_edge(m4a, t.1, next, None);
    let m4 = m4a.add_edge(t.1, next, None);
    match fcase {
        Some(fc) => {
            lemma_standalone_block(m4, *fc);
            let (m5, f) = m4.standalone_block(*fc);
            lemma_add_edge(m5, open, f.0, None);
            let m6a = m5.add_edge(open, f.0, None);
            lemma_add_edge(m6a, f.1, next, None);
            assert(r == m6a.add_edge(f.1, next, None));
            lemma_extends_trans(m5, m6a, r);
            lemma_extends_trans(m4, m5, r);
            lemma_exit_standalone(m4, *fc);
            lemma_kept(m5, r);
            lemma_add_edge_has(m6a, f.1, next, None);
        },
        None => {
            assert(r == m4.add_edge(open, next, None));
            lemma_add_edge(m4, open, next, None);
        },
    }
    lemma_extends_trans(m4a, m4, r);
    lemma_extends_trans(m3, m4a, r);
    lemma_extends_trans(m2, m3, r);
    lemma_exit_standalone(m1, tcase);
    lemma_kept(m2, r);
    lemma_add_edge_has(m4a, t.1, next, None);
    lemma_kept(m4, r);
    lemma_reach_refl(r.edges, next);
    assert forall|v: NodeIx| m.blocks.len() <= v < r.blocks.len() implies #[trigger] reachable(
        r.edges,
        v,
        next,
    ) by {
        if v < m2.blocks.len() {
            assert(reachable(m2.edges, v, t.1));
            lemma_reach_refl(r.edges, t.1);
            lemma_reach_step(r.edges, t.1, t.1, next);
            lemma_reach_trans(r.edges, v, t.1, next);
        } else if v == next {
        } else {
            match fcase {
                Some(fc) => {
                    let (m5, f) = m4.standalone_block(*fc);
                    assert(reachable(m5.edges, v, f.1));
                    lemma_reach_refl(r.edges, f.1);
                    lemma_reach_step(r.edges, f.1, f.1, next);
                    lemma_reach_trans(r.edges, v, f.1, next);
                },
                None => {},
            }
        }
    }
}

/// A `for (k in map)` loop: the body leads back to the header, and the
/// header to the footer.
proof fn lemma_exit_foreach(m: CtxModel, name: Name, array: Expr, body: Stmt, open: NodeIx)
    requires
        open < m.blocks.len(),
        m.convert_stmt(Stmt::ForEach(name, &array, &body), open).0.fits(),
    ensures
        new_nodes_reach(
            m.convert_stmt(Stmt::ForEach(name, &array, &body), open).0,
            m,
            m.convert_stmt(Stmt::ForEach(name, &array, &body), open).1,
        ),
    decreases stmt_size(Stmt::ForEach(name, &array, &body)), 1nat,
{
    let s = Stmt::ForEach(name, &array, &body);
    let r = m.convert_stmt(s, open).0;
    lemma_get_identifier(m, name);
    let (m1, v_id) = m.get_identifier(name);
    lemma_convert_val(m1, array, open);
    let (m2, array_val) = m1.convert_val(array, open);
    lemma_to_val(m2, PrimExprModel::IterBegin(array_val), open);
    let (m3, array_iter) = m2.to_val(PrimExprModel::IterBegin(array_val), open);
    lemma_add_node(m3);
    let (m4, cond_block) = m3.add_node();
    lemma_to_val(m4, PrimExprModel::HasNext(array_iter), cond_block);
    let (m5, cond_v) = m4.to_val(PrimExprModel::HasNext(array_iter), cond_block);
    lemma_add_edge(m5, open, cond_block, None);
    let m6 = m5.add_edge(open, cond_block, None);
    lemma_add_node(m6);
    let (m7, body_start) = m6.add_node();
    let st = PrimStmtModel::AsgnVar(v_id, PrimExprModel::Next(array_iter));
    lemma_add_stmt(m7, body_start, st);
    let m8 = m7.add_stmt(body_start, st);
    lemma_convert_stmt(m8, body, body_start);
    let (m9, body_end) = m8.convert_stmt(body, body_start);
    lemma_add_edge(m9, cond_block, body_start, Some(cond_v));
    let m10a = m9.add_edge(cond_block, body_start, Some(cond_v));
    lemma_add_edge(m10a, body_end, cond_block, None);
    let m10 = m10a.add_edge(body_end, cond_block, None);
    lemma_add_node(m10);
    let (m11, footer) = m10.add_node();
    lemma_add_edge(m11, cond_block, footer, None);
    assert(r == m11.add_edge(cond_block, footer, None));
    lemma_extends_trans(m10, m11, r);
    lemma_extends_trans(m10a, m10, r);
    lemma_extends_trans(m9, m10a, r);
    lemma_exit_stmt(m8, body, body_start);
    lemma_reach_stmt(m8, body, body_start);
    lemma_kept(m9, r);
    lemma_add_edge_has(m10a, body_end, cond_block, None);
    lemma_kept(m10, r);
    lemma_add_edge_has(m11, cond_block, footer, None);
    lemma_reach_refl(r.edges, cond_block);
    lemma_reach_step(r.edges, cond_block, cond_block, footer);
    lemma_reach_refl(r.edges, body_end);
    lemma_reach_step(r.edges, body_end, body_end, cond_block);
    lemma_reach_trans(r.edges, body_end, cond_block, footer);
    lemma_reach_refl(r.edges, footer);
    assert forall|v: NodeIx| m.blocks.len() <= v < r.blocks.len() implies #[trigger] reachable(
        r.edges,
        v,
        footer,
    ) by {
        if v == cond_block || v == footer {
        } else if v == body_start {
            assert(reachable(m9.edges, body_start, body_end));
            lemma_reach_trans(r.edges, body_start, body_end, footer);
        } else {
            assert(reachable(m9.edges, v, body_end));
            lemma_reach_trans(r.edges, v, body_end, footer);
        }
    }
}

} // verus!
