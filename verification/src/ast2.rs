//! Lowering of statements and expressions into a control-flow graph of
//! primitive statements.
use vstd::prelude::*;
use std::collections::HashMap;
use crate::ast1::{
    expr_appends, expr_size, expr_wf, exprs_wf, is_atom, opt_stmt_size, stmt_size,
    stmt_touches_open, stmt_wf, stmts_size, stmts_touch_open, stmts_wf, Expr, Name, Stmt,
};
use crate::graph::{
    cfg_add_edge, cfg_add_node, cfg_blocks, cfg_edges, cfg_new, cfg_push_stmt,
    block_model, Cfg, NodeIx,
};
use crate::lemmas::{
    lemma_add_edge, lemma_add_node, lemma_add_stmt, lemma_convert_expr, lemma_convert_seq,
    lemma_convert_seq_prefix, lemma_convert_stmt, lemma_convert_val, lemma_convert_vals,
    lemma_convert_vals_prefix, lemma_do_assign, lemma_fresh, lemma_get_identifier,
    lemma_make_loop, lemma_standalone_block, lemma_stmts_index, lemma_to_val,
};
use crate::model::{assign_value_size, AssignValue, CtxModel};
use crate::prim::{Ident, NumTy, PrimExpr, PrimExprModel, PrimStmt, PrimStmtModel, PrimVal, NUM_ONE};

verus! {

/// Whether the expression of an assignment value is well formed.
pub open spec fn assign_value_wf(v: AssignValue) -> bool {
    match v {
        AssignValue::Expr(e) => expr_wf(*e),
        AssignValue::Op(_, e) => expr_wf(*e),
    }
}

/// A lowering context: the identifiers given to source names, the next unused
/// variable number, the control-flow graph built so far and its entry node.
pub struct Context<'b> {
    hm: HashMap<Name, Ident>,
    max: NumTy,
    cfg: Cfg<'b>,
    entry: NodeIx,
}

impl<'b> View for Context<'b> {
    type V = CtxModel<'b>;

    closed spec fn view(&self) -> CtxModel<'b> {
        CtxModel {
            names: self.hm@,
            max: self.max as nat,
            blocks: cfg_blocks(self.cfg),
            edges: cfg_edges(self.cfg),
            entry: self.entry,
        }
    }
}

impl<'b> Default for Context<'b> {
    /// An empty context: no names, no nodes, entry 0.
    fn default() -> (r: Self)
        ensures
            r@ == CtxModel::<'b>::empty(),
            r.wf(),
    {
        Context { hm: HashMap::new(), max: 0, cfg: cfg_new(), entry: 0 }
    }
}

impl<'b> Context<'b> {
    /// The model is well formed and its counters fit.
    pub open spec fn wf(&self) -> bool {
        self@.wf() && self@.fits()
    }

    /// The control-flow graph built so far.
    pub fn cfg(&self) -> (r: &Cfg<'b>)
        ensures
            cfg_blocks(*r) == self@.blocks,
            cfg_edges(*r) == self@.edges,
    {
        &self.cfg
    }

    /// The entry node.
    pub fn entry(&self) -> (r: NodeIx)
        ensures
            r == self@.entry,
    {
        self.entry
    }

    /// A new variable.
    pub fn fresh(&mut self) -> (r: Ident)
        requires
            old(self)@.fresh().0.fits(),
        ensures
            (final(self)@, r) == old(self)@.fresh(),
    {
        let res = self.max;
        self.max = self.max + 1;
        (res, 0)
    }

    /// The identifier of a source name: the one it was given before, or a
    /// fresh one that it keeps from then on.
    pub fn get_identifier(&mut self, i: &Name) -> (r: Ident)
        requires
            old(self)@.get_identifier(*i).0.fits(),
        ensures
            (final(self)@, r) == old(self)@.get_identifier(*i),
    {
        if let Some(id) = self.hm.get(i) {
            return *id;
        }
        let next = self.fresh();
        self.hm.insert(*i, next);
        next
    }

    /// Appends a statement to the block of node `at`.
    pub fn add_stmt(&mut self, at: NodeIx, stmt: PrimStmt<'b>)
        requires
            at < old(self)@.blocks.len(),
        ensures
            final(self)@ == old(self)@.add_stmt(at, stmt@),
    {
        cfg_push_stmt(&mut self.cfg, at, stmt);
    }

    /// A value for `exp`: `exp` itself if it is a value, else a fresh variable
    /// assigned `exp` at the end of block `current_open`.
    pub fn to_val(&mut self, exp: PrimExpr<'b>, current_open: NodeIx) -> (r: PrimVal<'b>)
        requires
            !(exp is Val) ==> current_open < old(self)@.blocks.len(),
            old(self)@.to_val(exp@, current_open).0.fits(),
        ensures
            (final(self)@, r) == old(self)@.to_val(exp@, current_open),
    {
        if let PrimExpr::Val(v) = exp {
            v
        } else {
            let f = self.fresh();
            self.add_stmt(current_open, PrimStmt::AsgnVar(f, exp));
            PrimVal::Var(f)
        }
    }

    /// Lowers an expression into block `current_open`. Expressions do not
    /// branch: no node and no edge is added.
    pub fn convert_expr<'a>(&mut self, expr: &'a Expr<'a, 'b>, current_open: NodeIx) -> (r: PrimExpr<'b>)
        requires
            old(self).wf(),
            expr_appends(*expr) ==> current_open < old(self)@.blocks.len(),
            expr_wf(*expr),
            old(self)@.convert_expr(*expr, current_open).0.fits(),
        ensures
            (final(self)@, r@) == old(self)@.convert_expr(*expr, current_open),
            final(self).wf(),
            final(self)@.blocks.len() == old(self)@.blocks.len(),
            final(self)@.edges == old(self)@.edges,
        decreases expr_size(*expr), 1nat,
    {
        proof {
            lemma_convert_expr(self@, *expr, current_open);
        }
        match *expr {
            Expr::NumLit(n) => PrimExpr::Val(PrimVal::NumLit(n)),
            Expr::StrLit(s) => PrimExpr::Val(PrimVal::StrLit(s)),
            Expr::Unop(op, e) => {
                let v = self.convert_val(e, current_open);
                match op {
                    Ok(numop) => PrimExpr::NumUnop(numop, v),
                    Err(strop) => PrimExpr::StrUnop(strop, v),
                }
            },
            Expr::Binop(op, e1, e2) => {
                proof {
                    lemma_convert_val(self@, *e1, current_open);
                    lemma_convert_val(self@.convert_val(*e1, current_open).0, *e2, current_open);
                }
                let v1 = self.convert_val(e1, current_open);
                let v2 = self.convert_val(e2, current_open);
                match op {
                    Ok(numop) => PrimExpr::NumBinop(numop, v1, v2),
                    Err(strop) => PrimExpr::StrBinop(strop, v1, v2),
                }
            },
            Expr::Var(id) => {
                let ident = self.get_identifier(&id);
                PrimExpr::Val(PrimVal::Var(ident))
            },
            Expr::Index(arr, ix) => {
                proof {
                    lemma_convert_val(self@, *arr, current_open);
                    lemma_convert_val(self@.convert_val(*arr, current_open).0, *ix, current_open);
                }
                let arr_v = self.convert_val(arr, current_open);
                let ix_v = self.convert_val(ix, current_open);
                PrimExpr::Index(arr_v, ix_v)
            },
            Expr::Assign(lhs, to) => match *lhs {
                Expr::Var(v) => {
                    proof {
                        lemma_convert_expr(self@, *to, current_open);
                        let m1 = self@.convert_expr(*to, current_open).0;
                        lemma_get_identifier(m1, v);
                    }
                    let to_e = self.convert_expr(to, current_open);
                    let ident = self.get_identifier(&v);
                    self.add_stmt(current_open, PrimStmt::AsgnVar(ident, to_e));
                    PrimExpr::Val(PrimVal::Var(ident))
                },
                Expr::Index(arr, ix) => {
                    assert(expr_size(*lhs) == 1 + expr_size(*arr) + expr_size(*ix));
                    assert(expr_wf(*lhs));
                    assert(expr_wf(*arr) && expr_wf(*ix));
                    self.do_assign(arr, ix, AssignValue::Expr(to), current_open)
                },
                _ => {
                    assert(false);
                    PrimExpr::Val(PrimVal::NumLit(0))
                },
            },
            Expr::AssignOp(lhs, op, to) => match *lhs {
                Expr::Var(v) => {
                    proof {
                        lemma_convert_val(self@, *to, current_open);
                        let m1 = self@.convert_val(*to, current_open).0;
                        lemma_get_identifier(m1, v);
                    }
                    let to_v = self.convert_val(to, current_open);
                    let ident = self.get_identifier(&v);
                    let tmp = PrimExpr::NumBinop(op, PrimVal::Var(ident), to_v);
                    self.add_stmt(current_open, PrimStmt::AsgnVar(ident, tmp));
                    PrimExpr::Val(PrimVal::Var(ident))
                },
                Expr::Index(arr, ix) => {
                    assert(expr_size(*lhs) == 1 + expr_size(*arr) + expr_size(*ix));
                    assert(expr_wf(*lhs));
                    assert(expr_wf(*arr) && expr_wf(*ix));
                    self.do_assign(arr, ix, AssignValue::Op(op, to), current_open)
                },
                _ => {
                    assert(false);
                    PrimExpr::Val(PrimVal::NumLit(0))
                },
            },
        }
    }

    /// Lowers an indexed assignment `arr[ix] = value` into block
    /// `current_open`; the result is the assigned cell.
    pub fn do_assign<'a>(
        &mut self,
        arr: &'a Expr<'a, 'b>,
        ix: &'a Expr<'a, 'b>,
        value: AssignValue<'a, 'b>,
        current_open: NodeIx,
    ) -> (r: PrimExpr<'b>)
        requires
            old(self).wf(),
            current_open < old(self)@.blocks.len(),
            expr_wf(*arr),
            expr_wf(*ix),
            assign_value_wf(value),
            old(self)@.do_assign(*arr, *ix, value, current_open).0.fits(),
        ensures
            (final(self)@, r@) == old(self)@.do_assign(*arr, *ix, value, current_open),
            final(self).wf(),
        decreases expr_size(*arr) + expr_size(*ix) + assign_value_size(value) + 1, 0nat,
    {
        let ghost m0 = self@;
        proof {
            lemma_do_assign(m0, *arr, *ix, value, current_open);
            lemma_convert_expr(m0, *arr, current_open);
            let (m1, arr_e) = m0.convert_expr(*arr, current_open);
            lemma_fresh(m1);
            let (m2, arr_id) = m1.fresh();
            lemma_add_stmt(m2, current_open, PrimStmtModel::AsgnVar(arr_id, arr_e));
            let m3 = m2.add_stmt(current_open, PrimStmtModel::AsgnVar(arr_id, arr_e));
            lemma_convert_val(m3, *ix, current_open);
            let (m4, ix_v) = m3.convert_val(*ix, current_open);
            match value {
                AssignValue::Expr(to) => {
                    lemma_convert_expr(m4, *to, current_open);
                },
                AssignValue::Op(op, to) => {
                    lemma_convert_val(m4, *to, current_open);
                    let m5a = m4.convert_val(*to, current_open).0;
                    lemma_to_val(m5a, PrimExprModel::Index(PrimVal::Var(arr_id), ix_v), current_open);
                },
            }
        }
        let arr_e = self.convert_expr(arr, current_open);
        let arr_id = self.fresh();
        self.add_stmt(current_open, PrimStmt::AsgnVar(arr_id, arr_e));
        let arr_v = PrimVal::Var(arr_id);
        let ix_v = self.convert_val(ix, current_open);
        let to_e = match value {
            AssignValue::Expr(to) => self.convert_expr(to, current_open),
            AssignValue::Op(op, to) => {
                let to_v = self.convert_val(to, current_open);
                let arr_cell_v = self.to_val(PrimExpr::Index(arr_v, ix_v), current_open);
                PrimExpr::NumBinop(op, arr_cell_v, to_v)
            },
        };
        self.add_stmt(current_open, PrimStmt::AsgnIndex(arr_id, ix_v, to_e));
        PrimExpr::Index(arr_v, ix_v)
    }

    /// Lowers an expression to a primitive value in block `current_open`.
    pub fn convert_val<'a>(&mut self, expr: &'a Expr<'a, 'b>, current_open: NodeIx) -> (r: PrimVal<'b>)
        requires
            old(self).wf(),
            !is_atom(*expr) ==> current_open < old(self)@.blocks.len(),
            expr_wf(*expr),
            old(self)@.convert_val(*expr, current_open).0.fits(),
        ensures
            (final(self)@, r) == old(self)@.convert_val(*expr, current_open),
            final(self).wf(),
            final(self)@.blocks.len() == old(self)@.blocks.len(),
            final(self)@.edges == old(self)@.edges,
        decreases expr_size(*expr), 2nat,
    {
        proof {
            lemma_convert_val(self@, *expr, current_open);
            lemma_convert_expr(self@, *expr, current_open);
            let (m1, pe) = self@.convert_expr(*expr, current_open);
            lemma_to_val(m1, pe, current_open);
        }
        let e = self.convert_expr(expr, current_open);
        self.to_val(e, current_open)
    }

    /// Adds a node with an empty block.
    fn add_block(&mut self) -> (r: NodeIx)
        requires
            old(self)@.add_node().0.fits(),
        ensures
            (final(self)@, r) == old(self)@.add_node(),
    {
        let b: Vec<PrimStmt<'b>> = Vec::new();
        proof {
            assert(block_model(b@) =~= Seq::<PrimStmtModel<'b>>::empty());
        }
        cfg_add_node(&mut self.cfg, b)
    }

    /// Adds an edge from `a` to `b`.
    fn add_edge(&mut self, a: NodeIx, b: NodeIx, w: Option<PrimVal<'b>>)
        requires
            a < old(self)@.blocks.len(),
            b < old(self)@.blocks.len(),
            old(self)@.add_edge(a, b, w).fits(),
        ensures
            final(self)@ == old(self)@.add_edge(a, b, w),
    {
        cfg_add_edge(&mut self.cfg, a, b, w);
    }

    /// Lowers `stmt` into a new block. The result is that block and the block
    /// where the code that follows continues.
    pub fn standalone_block<'a>(&mut self, stmt: &'a Stmt<'a, 'b>) -> (r: (NodeIx, NodeIx))
        requires
            old(self).wf(),
            stmt_wf(*stmt),
            old(self)@.standalone_block(*stmt).0.fits(),
        ensures
            (final(self)@, r) == old(self)@.standalone_block(*stmt),
            final(self).wf(),
            r.0 == old(self)@.blocks.len(),
            r.1 < final(self)@.blocks.len(),
        decreases stmt_size(*stmt), 3nat,
    {
        proof {
            lemma_standalone_block(self@, *stmt);
            lemma_add_node(self@);
            let (m1, start) = self@.add_node();
            lemma_convert_stmt(m1, *stmt, start);
        }
        let start = self.add_block();
        let end = self.convert_stmt(stmt, start);
        (start, end)
    }

    /// Lowers a statement whose code starts in block `current_open`; the result
    /// is the block where the code that follows continues.
    pub fn convert_stmt<'a>(&mut self, stmt: &'a Stmt<'a, 'b>, current_open: NodeIx) -> (r: NodeIx)
        requires
            old(self).wf(),
            stmt_touches_open(*stmt) ==> current_open < old(self)@.blocks.len(),
            stmt_wf(*stmt),
            old(self)@.convert_stmt(*stmt, current_open).0.fits(),
        ensures
            (final(self)@, r) == old(self)@.convert_stmt(*stmt, current_open),
            final(self).wf(),
            current_open < old(self)@.blocks.len() ==> r < final(self)@.blocks.len(),
            !stmt_touches_open(*stmt) ==> r == current_open,
        decreases stmt_size(*stmt), 2nat,
    {
        let ghost m = self@;
        let ghost open = current_open;
        proof {
            lemma_convert_stmt(m, *stmt, open);
        }
        match stmt {
            Stmt::Expr(e) => {
                self.convert_expr(e, current_open);
                current_open
            },
            Stmt::Block(stmts) => {
                let mut current_open = current_open;
                let mut i: usize = 0;
                proof {
                    assert(stmts@.take(0) =~= Seq::<&Stmt>::empty());
                }
                while i < stmts.len()
                    invariant
                        0 <= i <= stmts@.len(),
                        (self@, current_open) == m.convert_seq(stmts@.take(i as int), open),
                        self.wf(),
                        current_open < self@.blocks.len() || (current_open == open
                            && !stmts_touch_open(stmts@)),
                        m.convert_seq(stmts@, open).0.fits(),
                        open < m.blocks.len() || !stmts_touch_open(stmts@),
                        stmts_wf(stmts@),
                        stmt_size(*stmt) == 1 + stmts_size(stmts@),
                    decreases stmts@.len() - i,
                {
                    proof {
                        lemma_stmts_index(stmts@, i as int);
                        lemma_convert_seq_prefix(m, stmts@, i + 1, open);
                        assert(stmts@.take(i + 1).drop_last() =~= stmts@.take(i as int));
                    }
                    current_open = self.convert_stmt(stmts[i], current_open);
                    i = i + 1;
                }
                proof {
                    assert(stmts@.take(stmts@.len() as int) =~= stmts@);
                }
                current_open
            },
            Stmt::Print(vs, out) => {
                let mut v: Vec<PrimVal<'b>> = Vec::with_capacity(vs.len());
                let mut i: usize = 0;
                proof {
                    assert(vs@.take(0) =~= Seq::<&Expr>::empty());
                    lemma_convert_vals(m, vs@, open);
                    let m1 = m.convert_vals(vs@, open).0;
                    match out {
                        Some(x) => lemma_convert_val(m1, **x, open),
                        None => {},
                    }
                }
                while i < vs.len()
                    invariant
                        0 <= i <= vs@.len(),
                        (self@, v@) == m.convert_vals(vs@.take(i as int), open),
                        self.wf(),
                        self@.blocks.len() == m.blocks.len(),
                        m.convert_vals(vs@, open).0.fits(),
                        open == current_open,
                        open < m.blocks.len(),
                        exprs_wf(vs@),
                    decreases vs@.len() - i,
                {
                    proof {
                        lemma_convert_vals_prefix(m, vs@, i + 1, open);
                        assert(vs@.take(i + 1).drop_last() =~= vs@.take(i as int));
                        assert(expr_wf(*vs@[i as int]));
                    }
                    let x = self.convert_val(vs[i], current_open);
                    v.push(x);
                    i = i + 1;
                }
                proof {
                    assert(vs@.take(vs@.len() as int) =~= vs@);
                }
                let out_v = match out {
                    Some(x) => Some(self.convert_val(x, current_open)),
                    None => None,
                };
                self.add_stmt(current_open, PrimStmt::Print(v, out_v));
                current_open
            },
            Stmt::If(cond, tcase, fcase) => {
                proof {
                    lemma_convert_val(m, **cond, open);
                    let (m1, c_val) = m.convert_val(**cond, open);
                    lemma_standalone_block(m1, **tcase);
                    let (m2, t) = m1.standalone_block(**tcase);
                    lemma_add_node(m2);
                    let (m3, next) = m2.add_node();
                    lemma_add_edge(m3, open, t.0, Some(c_val));
                    let m4a = m3.add_edge(open, t.0, Some(c_val));
                    lemma_add_edge(m4a, t.1, next, None);
                    let m4 = m4a.add_edge(t.1, next, None);
                    match fcase {
                        Some(fc) => {
                            lemma_standalone_block(m4, **fc);
                            let (m5, f) = m4.standalone_block(**fc);
                            lemma_add_edge(m5, open, f.0, None);
                            let m6a = m5.add_edge(open, f.0, None);
                            lemma_add_edge(m6a, f.1, next, None);
                        },
                        None => {
                            lemma_add_edge(m4, open, next, None);
                        },
                    }
                }
                let c_val = self.convert_val(cond, current_open);
                let (t_start, t_end) = self.standalone_block(tcase);
                let next = self.add_block();
                self.add_edge(current_open, t_start, Some(c_val));
                self.add_edge(t_end, next, None);
                if let Some(fcase) = fcase {
                    let (f_start, f_end) = self.standalone_block(fcase);
                    self.add_edge(current_open, f_start, None);
                    self.add_edge(f_end, next, None);
                } else {
                    self.add_edge(current_open, next, None);
                }
                next
            },
            Stmt::For(init, cond, update, body) => {
                proof {
                    let (m1, init_end) = match *init {
                        Some(i) => m.convert_stmt(*i, open),
                        None => (m, open),
                    };
                    match *init {
                        Some(i) => lemma_convert_stmt(m, *i, open),
                        None => {},
                    }
                    lemma_make_loop(m1, **body, *update, init_end);
                    let (m2, l) = m1.make_loop(**body, *update, init_end);
                    let (m3, cond_val) = match *cond {
                        Some(c) => m2.convert_val(*c, l.0),
                        None => (m2, PrimVal::NumLit(NUM_ONE)),
                    };
                    match *cond {
                        Some(c) => lemma_convert_val(m2, *c, l.0),
                        None => {},
                    }
                    lemma_add_edge(m3, l.0, l.1, Some(cond_val));
                    let m4 = m3.add_edge(l.0, l.1, Some(cond_val));
                    lemma_add_edge(m4, l.0, l.3, None);
                    assert(stmt_size(**body) + opt_stmt_size(*update) < stmt_size(*stmt));
                }
                let init_end = if let Some(i) = init {
                    self.convert_stmt(i, current_open)
                } else {
                    current_open
                };
                let (h, b_start, _b_end, f) = self.make_loop(body, *update, init_end);
                let cond_val = if let Some(c) = cond {
                    self.convert_val(c, h)
                } else {
                    PrimVal::NumLit(NUM_ONE)
                };
                self.add_edge(h, b_start, Some(cond_val));
                self.add_edge(h, f, None);
                f
            },
            Stmt::While(cond, body) => {
                proof {
                    lemma_make_loop(m, **body, None, open);
                    let (m1, l) = m.make_loop(**body, None, open);
                    lemma_convert_val(m1, **cond, l.0);
                    let (m2, cond_val) = m1.convert_val(**cond, l.0);
                    lemma_add_edge(m2, l.0, l.1, Some(cond_val));
                    let m3 = m2.add_edge(l.0, l.1, Some(cond_val));
                    lemma_add_edge(m3, l.0, l.3, None);
                    assert(stmt_size(**body) + opt_stmt_size(None) < stmt_size(*stmt));
                }
                let (h, b_start, _b_end, f) = self.make_loop(body, None, current_open);
                let cond_val = self.convert_val(cond, h);
                self.add_edge(h, b_start, Some(cond_val));
                self.add_edge(h, f, None);
                f
            },
            Stmt::ForEach(v, array, body) => {
                proof {
                    lemma_get_identifier(m, *v);
                    let (m1, v_id) = m.get_identifier(*v);
                    lemma_convert_val(m1, **array, open);
                    let (m2, array_val) = m1.convert_val(**array, open);
                    lemma_to_val(m2, PrimExprModel::IterBegin(array_val), open);
                    let (m3, array_iter) = m2.to_val(PrimExprModel::IterBegin(array_val), open);
                    lemma_add_node(m3);
                    let (m4, cond_block) = m3.add_node();
                    lemma_to_val(m4, PrimExprModel::HasNext(array_iter), cond_block);
                    let (m5, cond_v) = m4.to_val(PrimExprModel::HasNext(array_iter), cond_block);
                    lemma_add_edge(m5, open, cond_block, None);
                    let m6 = m5.add_edge(open, cond_block, None);
                    lemma_add_node(m6);
                    let (m7, body_start) = m6.add_node();
                    let st = PrimStmtModel::AsgnVar(v_id, PrimExprModel::Next(array_iter));
                    lemma_add_stmt(m7, body_start, st);
                    let m8 = m7.add_stmt(body_start, st);
                    lemma_convert_stmt(m8, **body, body_start);
                    let (m9, body_end) = m8.convert_stmt(**body, body_start);
                    lemma_add_edge(m9, cond_block, body_start, Some(cond_v));
                    let m10a = m9.add_edge(cond_block, body_start, Some(cond_v));
                    lemma_add_edge(m10a, body_end, cond_block, None);
                    let m10 = m10a.add_edge(body_end, cond_block, None);
                    lemma_add_node(m10);
                    let (m11, footer) = m10.add_node();
                    lemma_add_edge(m11, cond_block, footer, None);
                }
                let v_id = self.get_identifier(v);
                let array_val = self.convert_val(array, current_open);
                let array_iter = self.to_val(PrimExpr::IterBegin(array_val), current_open);

                // The loop header checks whether the map has more keys.
                let cond = PrimExpr::HasNext(array_iter);
                let cond_block = self.add_block();
                let cond_v = self.to_val(cond, cond_block);
                self.add_edge(current_open, cond_block, None);

                // The body starts by assigning the next key to the loop variable.
                let update = PrimStmt::AsgnVar(v_id, PrimExpr::Next(array_iter));
                let body_start = self.add_block();
                self.add_stmt(body_start, update);
                let body_end = self.convert_stmt(body, body_start);
                self.add_edge(cond_block, body_start, Some(cond_v));
                self.add_edge(body_end, cond_block, None);

                // The footer is where the loop exits to.
                let footer = self.add_block();
                self.add_edge(cond_block, footer, None);
                footer
            },
        }
    }

    /// The skeleton of a loop entered from `current_open`: a header, the body
    /// followed by the update, returning to the header, and a footer. The
    /// result is the header, the first and last blocks of the body, and the
    /// footer; the caller adds the header's outgoing edges.
    pub fn make_loop<'a>(
        &mut self,
        body: &'a Stmt<'a, 'b>,
        update: Option<&'a Stmt<'a, 'b>>,
        current_open: NodeIx,
    ) -> (r: (NodeIx, NodeIx, NodeIx, NodeIx))
        requires
            old(self).wf(),
            current_open < old(self)@.blocks.len(),
            stmt_wf(*body),
            match update {
                Some(u) => stmt_wf(*u),
                None => true,
            },
            old(self)@.make_loop(*body, update, current_open).0.fits(),
        ensures
            (final(self)@, r) == old(self)@.make_loop(*body, update, current_open),
            final(self).wf(),
            r.0 < final(self)@.blocks.len(),
            r.1 < final(self)@.blocks.len(),
            r.2 < final(self)@.blocks.len(),
            r.3 < final(self)@.blocks.len(),
        decreases stmt_size(*body) + opt_stmt_size(update), 4nat,
    {
        let ghost m = self@;
        proof {
            assert(stmt_size(*body) >= 1);
            lemma_make_loop(m, *body, update, current_open);
            lemma_add_node(m);
            let (m1, h) = m.add_node();
            lemma_standalone_block(m1, *body);
            let (ma, sm) = m1.standalone_block(*body);
            let m2 = match update {
                Some(u) => {
                    lemma_convert_stmt(ma, *u, sm.1);
                    ma.convert_stmt(*u, sm.1).0
                },
                None => ma,
            };
            let b1 = match update {
                Some(u) => ma.convert_stmt(*u, sm.1).1,
                None => sm.1,
            };
            lemma_add_node(m2);
            let (m3, f) = m2.add_node();
            lemma_add_edge(m3, current_open, h, None);
            let m4 = m3.add_edge(current_open, h, None);
            lemma_add_edge(m4, b1, h, None);
        }
        let h = self.add_block();
        let (b_start, b_end) = if let Some(u) = update {
            let (start, mid) = self.standalone_block(body);
            let end = self.convert_stmt(u, mid);
            (start, end)
        } else {
            self.standalone_block(body)
        };
        let f = self.add_block();
        self.add_edge(current_open, h, None);
        self.add_edge(b_end, h, None);
        (h, b_start, b_end, f)
    }

    /// A context lowered from `stmt`; its entry is the first block of `stmt`.
    pub fn from_stmt<'a>(stmt: &'a Stmt<'a, 'b>) -> (r: Self)
        requires
            stmt_wf(*stmt),
            CtxModel::from_stmt(*stmt).fits(),
        ensures
            r@ == CtxModel::from_stmt(*stmt),
            r.wf(),
    {
        let mut ctx = Self::default();
        let (start, _) = ctx.standalone_block(stmt);
        ctx.entry = start;
        ctx
    }
}

} // verus!
