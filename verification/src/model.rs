//! The mathematical model of a lowering context and of every lowering step.
//!
//! Each step is a function from a model state (and its arguments) to the next
//! model state and the step's result; the executable lowering in `ast2` is
//! proved to compute exactly these functions.
use vstd::prelude::*;
use crate::ast1::{expr_size, opt_stmt_size, stmt_size, stmts_size, Expr, Name, Stmt};
use crate::graph::{CfgEdge, NodeIx};
use crate::prim::{Ident, PrimExprModel, PrimStmtModel, PrimVal, NUM_ONE};

verus! {

/// What an indexed assignment stores: the value of an expression, or the old
/// cell combined with an expression by a numeric operator (`a[i] op= e`).
pub enum AssignValue<'a, 'b> {
    Expr(&'a Expr<'a, 'b>),
    Op(crate::ops::NumBinop, &'a Expr<'a, 'b>),
}

pub open spec fn assign_value_size(v: AssignValue) -> nat {
    match v {
        AssignValue::Expr(e) => expr_size(*e),
        AssignValue::Op(_, e) => expr_size(*e),
    }
}

/// The state of a lowering context.
pub struct CtxModel<'b> {
    /// The identifier given to each source name seen so far.
    pub names: Map<Name, Ident>,
    /// The next unused variable number.
    pub max: nat,
    /// The statements of each basic block, indexed by node.
    pub blocks: Seq<Seq<PrimStmtModel<'b>>>,
    /// The edges of the control-flow graph, in the order they were added.
    pub edges: Seq<CfgEdge<'b>>,
    /// The entry node.
    pub entry: NodeIx,
}

impl<'b> CtxModel<'b> {
    /// The state of a new context: no names, no nodes, entry 0.
    pub open spec fn empty() -> Self {
        CtxModel {
            names: Map::empty(),
            max: 0,
            blocks: Seq::empty(),
            edges: Seq::empty(),
            entry: 0,
        }
    }

    /// Edges join existing nodes; every named identifier has subscript 0 and a
    /// number below `max`; distinct names have distinct identifiers.
    pub open spec fn wf(self) -> bool {
        &&& forall|i: int|
            0 <= i < self.edges.len() ==> (#[trigger] self.edges[i]).0 < self.blocks.len()
                && self.edges[i].1 < self.blocks.len()
        &&& forall|k: Name|
            #[trigger] self.names.contains_key(k) ==> self.names[k].0 < self.max
                && self.names[k].1 == 0
        &&& forall|k1: Name, k2: Name|
            #[trigger] self.names.contains_key(k1) && #[trigger] self.names.contains_key(k2)
                && k1 != k2 ==> self.names[k1] != self.names[k2]
    }

    /// The counters fit the machine integers that hold them: variable numbers
    /// and node and edge indices are `u32`.
    pub open spec fn fits(self) -> bool {
        &&& self.max <= u32::MAX
        &&& self.blocks.len() <= u32::MAX
        &&& self.edges.len() <= u32::MAX
    }

    /// `self` is `old` after appending: names, statements and edges of `old`
    /// are kept, and only grow.
    pub open spec fn extends(self, old: Self) -> bool {
        &&& self.max >= old.max
        &&& self.entry == old.entry
        &&& forall|k: Name|
            #[trigger] old.names.contains_key(k) ==> self.names.contains_key(k)
                && self.names[k] == old.names[k]
        &&& self.blocks.len() >= old.blocks.len()
        &&& forall|i: int|
            0 <= i < old.blocks.len() ==> (#[trigger] self.blocks[i]).len()
                >= old.blocks[i].len()
        &&& forall|i: int, j: int|
            0 <= i < old.blocks.len() && 0 <= j < old.blocks[i].len() ==> (
            #[trigger] self.blocks[i][j]) == old.blocks[i][j]
        &&& self.edges.len() >= old.edges.len()
        &&& forall|j: int| 0 <= j < old.edges.len() ==> #[trigger] self.edges[j] == old.edges[j]
    }

    /// A new variable: `(max, 0)`.
    pub open spec fn fresh(self) -> (Self, Ident) {
        (CtxModel { max: self.max + 1, ..self }, (self.max as u32, 0u32))
    }

    /// The identifier of a source name: the one it already has, or a fresh one
    /// that it keeps from then on.
    pub open spec fn get_identifier(self, name: Name) -> (Self, Ident) {
        if self.names.contains_key(name) {
            (self, self.names[name])
        } else {
            let (m, id) = self.fresh();
            (CtxModel { names: m.names.insert(name, id), ..m }, id)
        }
    }

    /// Appends `s` to the block of node `at`.
    pub open spec fn add_stmt(self, at: NodeIx, s: PrimStmtModel<'b>) -> Self {
        CtxModel { blocks: self.blocks.update(at as int, self.blocks[at as int].push(s)), ..self }
    }

    /// A new empty block; its index is the old node count.
    pub open spec fn add_node(self) -> (Self, NodeIx) {
        (CtxModel { blocks: self.blocks.push(Seq::empty()), ..self }, self.blocks.len() as NodeIx)
    }

    /// A new edge from `a` to `b`.
    pub open spec fn add_edge(self, a: NodeIx, b: NodeIx, w: Option<PrimVal<'b>>) -> Self {
        CtxModel { edges: self.edges.push((a, b, w)), ..self }
    }

    /// A value for `e`: `e` itself if it is a value, else a fresh variable
    /// assigned `e` at the end of block `open`.
    pub open spec fn to_val(self, e: PrimExprModel<'b>, open: NodeIx) -> (Self, PrimVal<'b>) {
        match e {
            PrimExprModel::Val(v) => (self, v),
            _ => {
                let (m, f) = self.fresh();
                (m.add_stmt(open, PrimStmtModel::AsgnVar(f, e)), PrimVal::Var(f))
            },
        }
    }

    /// Lowers an expression into block `open`: the statements it needs are
    /// appended there, and the primitive expression for its value is returned.
    pub open spec fn convert_expr(self, e: Expr<'_, 'b>, open: NodeIx) -> (Self, PrimExprModel<'b>)
        decreases expr_size(e), 1nat,
    {
        match e {
            Expr::NumLit(n) => (self, PrimExprModel::Val(PrimVal::NumLit(n))),
            Expr::StrLit(s) => (self, PrimExprModel::Val(PrimVal::StrLit(s))),
            Expr::Unop(op, a) => {
                let (m1, v) = self.convert_val(*a, open);
                (
                    m1,
                    match op {
                        Ok(o) => PrimExprModel::NumUnop(o, v),
                        Err(o) => PrimExprModel::StrUnop(o, v),
                    },
                )
            },
            Expr::Binop(op, a, b) => {
                let (m1, v1) = self.convert_val(*a, open);
                let (m2, v2) = m1.convert_val(*b, open);
                (
                    m2,
                    match op {
                        Ok(o) => PrimExprModel::NumBinop(o, v1, v2),
                        Err(o) => PrimExprModel::StrBinop(o, v1, v2),
                    },
                )
            },
            Expr::Var(name) => {
                let (m1, id) = self.get_identifier(name);
                (m1, PrimExprModel::Val(PrimVal::Var(id)))
            },
            Expr::Index(a, ix) => {
                let (m1, v1) = self.convert_val(*a, open);
                let (m2, v2) = m1.convert_val(*ix, open);
                (m2, PrimExprModel::Index(v1, v2))
            },
            Expr::Assign(lhs, to) => match *lhs {
                Expr::Var(name) => {
                    let (m1, to_e) = self.convert_expr(*to, open);
                    let (m2, id) = m1.get_identifier(name);
                    (
                        m2.add_stmt(open, PrimStmtModel::AsgnVar(id, to_e)),
                        PrimExprModel::Val(PrimVal::Var(id)),
                    )
                },
                Expr::Index(arr, ix) => {
                    proof {
                        assert(expr_size(*lhs) == 1 + expr_size(*arr) + expr_size(*ix));
                    }
                    self.do_assign(*arr, *ix, AssignValue::Expr(to), open)
                },
                _ => (self, PrimExprModel::Val(PrimVal::NumLit(0))),
            },
            Expr::AssignOp(lhs, op, to) => match *lhs {
                Expr::Var(name) => {
                    let (m1, to_v) = self.convert_val(*to, open);
                    let (m2, id) = m1.get_identifier(name);
                    let tmp = PrimExprModel::NumBinop(op, PrimVal::Var(id), to_v);
                    (m2.add_stmt(open, PrimStmtModel::AsgnVar(id, tmp)), PrimExprModel::Val(PrimVal::Var(id)))
                },
                Expr::Index(arr, ix) => {
                    proof {
                        assert(expr_size(*lhs) == 1 + expr_size(*arr) + expr_size(*ix));
                    }
                    self.do_assign(*arr, *ix, AssignValue::Op(op, to), open)
                },
                _ => (self, PrimExprModel::Val(PrimVal::NumLit(0))),
            },
        }
    }

    /// Lowers an expression to a primitive value.
    pub open spec fn convert_val(self, e: Expr<'_, 'b>, open: NodeIx) -> (Self, PrimVal<'b>)
        decreases expr_size(e), 2nat,
    {
        let (m, pe) = self.convert_expr(e, open);
        m.to_val(pe, open)
    }

    /// Lowers `arr[ix] = value`: the map goes into a fresh variable, the index
    /// is lowered to a value, then the store is appended; the result is the
    /// stored cell.
    pub open spec fn do_assign(
        self,
        arr: Expr<'_, 'b>,
        ix: Expr<'_, 'b>,
        value: AssignValue<'_, 'b>,
        open: NodeIx,
    ) -> (Self, PrimExprModel<'b>)
        decreases expr_size(arr) + expr_size(ix) + assign_value_size(value) + 1, 0nat,
    {
        let (m1, arr_e) = self.convert_expr(arr, open);
        let (m2, arr_id) = m1.fresh();
        let m3 = m2.add_stmt(open, PrimStmtModel::AsgnVar(arr_id, arr_e));
        let arr_v = PrimVal::Var(arr_id);
        let (m4, ix_v) = m3.convert_val(ix, open);
        let (m5, to_e) = match value {
            AssignValue::Expr(to) => m4.convert_expr(*to, open),
            AssignValue::Op(op, to) => {
                let (m5a, to_v) = m4.convert_val(*to, open);
                let (m5b, cell) = m5a.to_val(PrimExprModel::Index(arr_v, ix_v), open);
                (m5b, PrimExprModel::NumBinop(op, cell, to_v))
            },
        };
        (m5.add_stmt(open, PrimStmtModel::AsgnIndex(arr_id, ix_v, to_e)), PrimExprModel::Index(arr_v, ix_v))
    }

    /// Lowers a sequence of expressions, in order, to values.
    pub open spec fn convert_vals(self, es: Seq<&Expr<'_, 'b>>, open: NodeIx) -> (Self, Seq<PrimVal<'b>>)
        decreases es.len(),
    {
        if es.len() == 0 {
            (self, Seq::empty())
        } else {
            let (m1, vs) = self.convert_vals(es.drop_last(), open);
            let (m2, v) = m1.convert_val(*es.last(), open);
            (m2, vs.push(v))
        }
    }

    /// Lowers a statement whose code starts in block `open`; the result is the
    /// block where the code that follows continues.
    pub open spec fn convert_stmt(self, s: Stmt<'_, 'b>, open: NodeIx) -> (Self, NodeIx)
        decreases stmt_size(s), 2nat,
    {
        match s {
            Stmt::Expr(e) => (self.convert_expr(*e, open).0, open),
            Stmt::Block(ss) => self.convert_seq(ss@, open),
            Stmt::Print(es, out) => {
                let (m1, vals) = self.convert_vals(es@, open);
                let (m2, out_v) = match out {
                    Some(x) => {
                        let (ma, v) = m1.convert_val(*x, open);
                        (ma, Some(v))
                    },
                    None => (m1, None),
                };
                (m2.add_stmt(open, PrimStmtModel::Print(vals, out_v)), open)
            },
            Stmt::If(cond, tcase, fcase) => {
                let (m1, c_val) = self.convert_val(*cond, open);
                let (m2, t) = m1.standalone_block(*tcase);
                let (m3, next) = m2.add_node();
                let m4 = m3.add_edge(open, t.0, Some(c_val)).add_edge(t.1, next, None);
                match fcase {
                    Some(fc) => {
                        let (m5, f) = m4.standalone_block(*fc);
                        (m5.add_edge(open, f.0, None).add_edge(f.1, next, None), next)
                    },
                    None => (m4.add_edge(open, next, None), next),
                }
            },
            Stmt::For(init, cond, update, body) => {
                let (m1, init_end) = match init {
                    Some(i) => self.convert_stmt(*i, open),
                    None => (self, open),
                };
                let (m2, l) = m1.make_loop(*body, update, init_end);
                let (m3, cond_val) = match cond {
                    Some(c) => m2.convert_val(*c, l.0),
                    None => (m2, PrimVal::NumLit(NUM_ONE)),
                };
                (m3.add_edge(l.0, l.1, Some(cond_val)).add_edge(l.0, l.3, None), l.3)
            },
            Stmt::While(cond, body) => {
                let (m1, l) = self.make_loop(*body, None, open);
                let (m2, cond_val) = m1.convert_val(*cond, l.0);
                (m2.add_edge(l.0, l.1, Some(cond_val)).add_edge(l.0, l.3, None), l.3)
            },
            Stmt::ForEach(name, array, body) => {
                let (m1, v_id) = self.get_identifier(name);
                let (m2, array_val) = m1.convert_val(*array, open);
                let (m3, array_iter) = m2.to_val(PrimExprModel::IterBegin(array_val), open);
                let (m4, cond_block) = m3.add_node();
                let (m5, cond_v) = m4.to_val(PrimExprModel::HasNext(array_iter), cond_block);
                let m6 = m5.add_edge(open, cond_block, None);
                let (m7, body_start) = m6.add_node();
                let m8 = m7.add_stmt(
                    body_start,
                    PrimStmtModel::AsgnVar(v_id, PrimExprModel::Next(array_iter)),
                );
                let (m9, body_end) = m8.convert_stmt(*body, body_start);
                let m10 = m9.add_edge(cond_block, body_start, Some(cond_v)).add_edge(
                    body_end,
                    cond_block,
                    None,
                );
                let (m11, footer) = m10.add_node();
                (m11.add_edge(cond_block, footer, None), footer)
            },
        }
    }

    /// Lowers the statements of a block one after the other.
    pub open spec fn convert_seq(self, ss: Seq<&Stmt<'_, 'b>>, open: NodeIx) -> (Self, NodeIx)
        decreases stmts_size(ss), 5nat,
    {
        if ss.len() == 0 {
            (self, open)
        } else {
            proof {
                assert(stmt_size(*ss.last()) >= 1);
            }
            let (m1, o1) = self.convert_seq(ss.drop_last(), open);
            m1.convert_stmt(*ss.last(), o1)
        }
    }

    /// Lowers a statement into a new block; the result holds that block and
    /// the block where the code that follows continues.
    pub open spec fn standalone_block(self, s: Stmt<'_, 'b>) -> (Self, (NodeIx, NodeIx))
        decreases stmt_size(s), 3nat,
    {
        let (m1, start) = self.add_node();
        let (m2, end) = m1.convert_stmt(s, start);
        (m2, (start, end))
    }

    /// The skeleton of a loop entered from `open`: a header, the body (with the
    /// update after it) that returns to the header, and a footer. The result
    /// holds the header, the body's first and last blocks, and the footer; the
    /// caller adds the header's two outgoing edges.
    pub open spec fn make_loop(
        self,
        body: Stmt<'_, 'b>,
        update: Option<&Stmt<'_, 'b>>,
        open: NodeIx,
    ) -> (Self, (NodeIx, NodeIx, NodeIx, NodeIx))
        decreases stmt_size(body) + opt_stmt_size(update), 4nat,
    {
        let (m1, h) = self.add_node();
        let (m2, b) = match update {
            Some(u) => {
                let (ma, sm) = m1.standalone_block(body);
                let (mb, end) = ma.convert_stmt(*u, sm.1);
                (mb, (sm.0, end))
            },
            None => m1.standalone_block(body),
        };
        let (m3, f) = m2.add_node();
        (m3.add_edge(open, h, None).add_edge(b.1, h, None), (h, b.0, b.1, f))
    }

    /// A context lowered from `s`: the entry is the first block of `s`.
    pub open spec fn from_stmt(s: Stmt<'_, 'b>) -> Self {
        let (m, se) = Self::empty().standalone_block(s);
        CtxModel { entry: se.0, ..m }
    }
}

} // verus!
