use frawk_ast::ast1::{Expr, Stmt};
use frawk_ast::ast2::Context;
use frawk_ast::graph::Cfg;
use frawk_ast::model::AssignValue;
use frawk_ast::ops::{NumBinop, NumUnop, StrBinop};
use frawk_ast::prim::{PrimExpr, PrimStmt, PrimVal, NUM_ONE};
use petgraph::graph::NodeIndex;
use petgraph::Direction;

const TWO: u64 = 0x4000_0000_0000_0000;
const FIVE: u64 = 0x4014_0000_0000_0000;

fn block<'a, 'b>(g: &'a Cfg<'b>, i: usize) -> &'a Vec<PrimStmt<'b>> {
    g.node_weight(NodeIndex::new(i)).unwrap()
}

fn succs(g: &Cfg, i: usize) -> Vec<usize> {
    g.neighbors_directed(NodeIndex::new(i), Direction::Outgoing)
        .map(|n| n.index())
        .collect()
}

fn edge_list<'b>(g: &Cfg<'b>) -> Vec<(usize, usize, Option<PrimVal<'b>>)> {
    g.raw_edges()
        .iter()
        .map(|e| (e.source().index(), e.target().index(), e.weight))
        .collect()
}

#[test]
fn default_context_is_empty() {
    let ctx = Context::default();
    assert_eq!(ctx.entry(), 0);
    assert_eq!(ctx.cfg().node_count(), 0);
    assert_eq!(ctx.cfg().edge_count(), 0);
}

#[test]
fn literal_statement_adds_nothing() {
    let e = Expr::NumLit(NUM_ONE);
    let s = Stmt::Expr(&e);
    let ctx = Context::from_stmt(&s);
    assert_eq!(ctx.entry(), 0);
    assert_eq!(ctx.cfg().node_count(), 1);
    assert_eq!(ctx.cfg().edge_count(), 0);
    assert!(block(ctx.cfg(), 0).is_empty());
}

#[test]
fn assign_variable() {
    let one = Expr::NumLit(NUM_ONE);
    let x = Expr::Var(7);
    let asg = Expr::Assign(&x, &one);
    let s = Stmt::Expr(&asg);
    let ctx = Context::from_stmt(&s);
    assert_eq!(
        block(ctx.cfg(), 0),
        &vec![PrimStmt::AsgnVar((0, 0), PrimExpr::Val(PrimVal::NumLit(NUM_ONE)))]
    );
}

#[test]
fn assign_op_converts_value_before_target() {
    let x = Expr::Var(1);
    let y = Expr::Var(2);
    let e = Expr::AssignOp(&x, NumBinop::Plus, &y);
    let s = Stmt::Expr(&e);
    let ctx = Context::from_stmt(&s);
    // `y` is looked up first and gets (0, 0); `x` gets (1, 0).
    assert_eq!(
        block(ctx.cfg(), 0),
        &vec![PrimStmt::AsgnVar(
            (1, 0),
            PrimExpr::NumBinop(NumBinop::Plus, PrimVal::Var((1, 0)), PrimVal::Var((0, 0)))
        )]
    );
}

#[test]
fn nested_operation_gets_a_temporary() {
    let one = Expr::NumLit(NUM_ONE);
    let two = Expr::NumLit(TWO);
    let sum = Expr::Binop(Ok(NumBinop::Plus), &one, &two);
    let neg = Expr::Unop(Ok(NumUnop::Neg), &sum);
    let z = Expr::Var(3);
    let asg = Expr::Assign(&z, &neg);
    let s = Stmt::Expr(&asg);
    let ctx = Context::from_stmt(&s);
    assert_eq!(
        block(ctx.cfg(), 0),
        &vec![
            PrimStmt::AsgnVar(
                (0, 0),
                PrimExpr::NumBinop(NumBinop::Plus, PrimVal::NumLit(NUM_ONE), PrimVal::NumLit(TWO))
            ),
            PrimStmt::AsgnVar((1, 0), PrimExpr::NumUnop(NumUnop::Neg, PrimVal::Var((0, 0)))),
        ]
    );
}

#[test]
fn string_concat_keeps_literals() {
    let a = Expr::StrLit("a");
    let b = Expr::StrLit("b");
    let cat = Expr::Binop(Err(StrBinop::Concat), &a, &b);
    let v = Expr::Var(0);
    let asg = Expr::Assign(&v, &cat);
    let s = Stmt::Expr(&asg);
    let ctx = Context::from_stmt(&s);
    assert_eq!(
        block(ctx.cfg(), 0),
        &vec![PrimStmt::AsgnVar(
            (0, 0),
            PrimExpr::StrBinop(StrBinop::Concat, PrimVal::StrLit("a"), PrimVal::StrLit("b"))
        )]
    );
}

#[test]
fn index_assignment() {
    let arr = Expr::Var(10);
    let ix = Expr::Var(11);
    let five = Expr::NumLit(FIVE);
    let cell = Expr::Index(&arr, &ix);
    let asg = Expr::Assign(&cell, &five);
    let s = Stmt::Expr(&asg);
    let ctx = Context::from_stmt(&s);
    assert_eq!(
        block(ctx.cfg(), 0),
        &vec![
            PrimStmt::AsgnVar((1, 0), PrimExpr::Val(PrimVal::Var((0, 0)))),
            PrimStmt::AsgnIndex((1, 0), PrimVal::Var((2, 0)), PrimExpr::Val(PrimVal::NumLit(FIVE))),
        ]
    );
}

#[test]
fn index_assign_op_reads_the_cell() {
    let arr = Expr::Var(10);
    let ix = Expr::Var(11);
    let five = Expr::NumLit(FIVE);
    let cell = Expr::Index(&arr, &ix);
    let asg = Expr::AssignOp(&cell, NumBinop::Mult, &five);
    let s = Stmt::Expr(&asg);
    let ctx = Context::from_stmt(&s);
    assert_eq!(
        block(ctx.cfg(), 0),
        &vec![
            PrimStmt::AsgnVar((1, 0), PrimExpr::Val(PrimVal::Var((0, 0)))),
            PrimStmt::AsgnVar((3, 0), PrimExpr::Index(PrimVal::Var((1, 0)), PrimVal::Var((2, 0)))),
            PrimStmt::AsgnIndex(
                (1, 0),
                PrimVal::Var((2, 0)),
                PrimExpr::NumBinop(NumBinop::Mult, PrimVal::Var((3, 0)), PrimVal::NumLit(FIVE))
            ),
        ]
    );
}

#[test]
fn do_assign_returns_the_cell() {
    let mut ctx = Context::default();
    let e = Expr::NumLit(NUM_ONE);
    let s = Stmt::Expr(&e);
    let (start, _) = ctx.standalone_block(&s);
    let arr = Expr::Var(4);
    let ix = Expr::NumLit(TWO);
    let val = Expr::NumLit(FIVE);
    let r = ctx.do_assign(&arr, &ix, AssignValue::Expr(&val), start);
    assert_eq!(r, PrimExpr::Index(PrimVal::Var((1, 0)), PrimVal::NumLit(TWO)));
}

#[test]
fn identifiers_are_stable_and_fresh_ones_are_new() {
    let mut ctx = Context::default();
    let a = ctx.get_identifier(&42);
    let b = ctx.get_identifier(&43);
    let a2 = ctx.get_identifier(&42);
    let f = ctx.fresh();
    assert_eq!(a, (0, 0));
    assert_eq!(b, (1, 0));
    assert_eq!(a2, a);
    assert_eq!(f, (2, 0));
    assert_eq!(ctx.get_identifier(&44), (3, 0));
}

#[test]
fn to_val_keeps_values_and_names_others() {
    let mut ctx = Context::default();
    let e = Expr::NumLit(NUM_ONE);
    let s = Stmt::Expr(&e);
    let (start, _) = ctx.standalone_block(&s);
    let v = ctx.to_val(PrimExpr::Val(PrimVal::NumLit(TWO)), start);
    assert_eq!(v, PrimVal::NumLit(TWO));
    let w = ctx.to_val(PrimExpr::HasNext(PrimVal::Var((9, 0))), start);
    assert_eq!(w, PrimVal::Var((0, 0)));
    assert_eq!(
        block(ctx.cfg(), start as usize),
        &vec![PrimStmt::AsgnVar((0, 0), PrimExpr::HasNext(PrimVal::Var((9, 0))))]
    );
}

#[test]
fn print_statement() {
    let x = Expr::Var(5);
    let out = Expr::StrLit("file");
    let s = Stmt::Print(vec![&x, &x], Some(&out));
    let ctx = Context::from_stmt(&s);
    assert_eq!(
        block(ctx.cfg(), 0),
        &vec![PrimStmt::Print(
            vec![PrimVal::Var((0, 0)), PrimVal::Var((0, 0))],
            Some(PrimVal::StrLit("file"))
        )]
    );
}

#[test]
fn if_without_else() {
    let c = Expr::Var(1);
    let x = Expr::Var(2);
    let one = Expr::NumLit(NUM_ONE);
    let asg = Expr::Assign(&x, &one);
    let t = Stmt::Expr(&asg);
    let s = Stmt::If(&c, &t, None);
    let ctx = Context::from_stmt(&s);
    let g = ctx.cfg();
    assert_eq!(g.node_count(), 3);
    assert_eq!(
        edge_list(g),
        vec![(0, 1, Some(PrimVal::Var((0, 0)))), (1, 2, None), (0, 2, None)]
    );
    assert_eq!(succs(g, 0), vec![2, 1]);
    assert_eq!(
        block(g, 1),
        &vec![PrimStmt::AsgnVar((1, 0), PrimExpr::Val(PrimVal::NumLit(NUM_ONE)))]
    );
}

#[test]
fn if_with_else() {
    let c = Expr::Var(1);
    let one = Expr::NumLit(NUM_ONE);
    let t = Stmt::Expr(&one);
    let f = Stmt::Expr(&one);
    let s = Stmt::If(&c, &t, Some(&f));
    let ctx = Context::from_stmt(&s);
    let g = ctx.cfg();
    assert_eq!(g.node_count(), 4);
    assert_eq!(
        edge_list(g),
        vec![
            (0, 1, Some(PrimVal::Var((0, 0)))),
            (1, 2, None),
            (0, 3, None),
            (3, 2, None)
        ]
    );
}

#[test]
fn while_loop() {
    let c = Expr::Var(1);
    let one = Expr::NumLit(NUM_ONE);
    let body = Stmt::Expr(&one);
    let s = Stmt::While(&c, &body);
    let ctx = Context::from_stmt(&s);
    let g = ctx.cfg();
    assert_eq!(g.node_count(), 4);
    assert_eq!(
        edge_list(g),
        vec![
            (0, 1, None),
            (2, 1, None),
            (1, 2, Some(PrimVal::Var((0, 0)))),
            (1, 3, None)
        ]
    );
}

#[test]
fn for_loop_without_condition_tests_one() {
    let one = Expr::NumLit(NUM_ONE);
    let body = Stmt::Expr(&one);
    let s = Stmt::For(None, None, None, &body);
    let ctx = Context::from_stmt(&s);
    let g = ctx.cfg();
    assert_eq!(
        edge_list(g),
        vec![
            (0, 1, None),
            (2, 1, None),
            (1, 2, Some(PrimVal::NumLit(NUM_ONE))),
            (1, 3, None)
        ]
    );
}

#[test]
fn for_loop_with_all_parts() {
    let i = Expr::Var(1);
    let zero = Expr::NumLit(0);
    let init_e = Expr::Assign(&i, &zero);
    let init = Stmt::Expr(&init_e);
    let upd_e = Expr::AssignOp(&i, NumBinop::Plus, &zero);
    let upd = Stmt::Expr(&upd_e);
    let body = Stmt::Expr(&zero);
    let s = Stmt::For(Some(&init), Some(&i), Some(&upd), &body);
    let ctx = Context::from_stmt(&s);
    let g = ctx.cfg();
    assert_eq!(g.node_count(), 4);
    assert_eq!(
        block(g, 0),
        &vec![PrimStmt::AsgnVar((0, 0), PrimExpr::Val(PrimVal::NumLit(0)))]
    );
    // the update goes at the end of the body
    assert_eq!(
        block(g, 2),
        &vec![PrimStmt::AsgnVar(
            (0, 0),
            PrimExpr::NumBinop(NumBinop::Plus, PrimVal::Var((0, 0)), PrimVal::NumLit(0))
        )]
    );
    assert_eq!(
        edge_list(g),
        vec![
            (0, 1, None),
            (2, 1, None),
            (1, 2, Some(PrimVal::Var((0, 0)))),
            (1, 3, None)
        ]
    );
}

#[test]
fn for_each_loop() {
    let m = Expr::Var(20);
    let one = Expr::NumLit(NUM_ONE);
    let body = Stmt::Expr(&one);
    let s = Stmt::ForEach(21, &m, &body);
    let ctx = Context::from_stmt(&s);
    let g = ctx.cfg();
    assert_eq!(g.node_count(), 4);
    assert_eq!(
        block(g, 0),
        &vec![PrimStmt::AsgnVar((2, 0), PrimExpr::IterBegin(PrimVal::Var((1, 0))))]
    );
    assert_eq!(
        block(g, 1),
        &vec![PrimStmt::AsgnVar((3, 0), PrimExpr::HasNext(PrimVal::Var((2, 0))))]
    );
    assert_eq!(
        block(g, 2),
        &vec![PrimStmt::AsgnVar((0, 0), PrimExpr::Next(PrimVal::Var((2, 0))))]
    );
    assert_eq!(
        edge_list(g),
        vec![
            (0, 1, None),
            (1, 2, Some(PrimVal::Var((3, 0)))),
            (2, 1, None),
            (1, 3, None)
        ]
    );
}

#[test]
fn block_statements_run_in_order() {
    let c = Expr::Var(1);
    let one = Expr::NumLit(NUM_ONE);
    let t = Stmt::Expr(&one);
    let first = Stmt::If(&c, &t, None);
    let x = Expr::Var(2);
    let asg = Expr::Assign(&x, &one);
    let second = Stmt::Expr(&asg);
    let s = Stmt::Block(vec![&first, &second]);
    let ctx = Context::from_stmt(&s);
    let g = ctx.cfg();
    assert_eq!(g.node_count(), 3);
    // the second statement lands in the join block of the `if`
    assert_eq!(
        block(g, 2),
        &vec![PrimStmt::AsgnVar((1, 0), PrimExpr::Val(PrimVal::NumLit(NUM_ONE)))]
    );
}

#[test]
fn standalone_block_returns_new_node() {
    let mut ctx = Context::default();
    let one = Expr::NumLit(NUM_ONE);
    let s = Stmt::Expr(&one);
    assert_eq!(ctx.standalone_block(&s), (0, 0));
    let c = Expr::Var(1);
    let w = Stmt::While(&c, &s);
    assert_eq!(ctx.standalone_block(&w), (1, 4));
    assert_eq!(ctx.cfg().node_count(), 5);
}

#[test]
fn make_loop_skeleton() {
    let mut ctx = Context::default();
    let one = Expr::NumLit(NUM_ONE);
    let s = Stmt::Expr(&one);
    let (start, end) = ctx.standalone_block(&s);
    assert_eq!((start, end), (0, 0));
    let r = ctx.make_loop(&s, Some(&s), 0);
    assert_eq!(r, (1, 2, 2, 3));
    assert_eq!(edge_list(ctx.cfg()), vec![(0, 1, None), (2, 1, None)]);
}

#[test]
fn convert_stmt_continues_in_join_block() {
    let mut ctx = Context::default();
    let one = Expr::NumLit(NUM_ONE);
    let s = Stmt::Expr(&one);
    let (start, _) = ctx.standalone_block(&s);
    let c = Expr::Var(1);
    let i = Stmt::If(&c, &s, None);
    assert_eq!(ctx.convert_stmt(&i, start), 2);
    assert_eq!(ctx.convert_stmt(&s, 2), 2);
}

#[test]
fn convert_val_and_add_stmt() {
    let mut ctx = Context::default();
    let one = Expr::NumLit(NUM_ONE);
    let s = Stmt::Expr(&one);
    let (start, _) = ctx.standalone_block(&s);
    let x = Expr::Var(3);
    let two = Expr::NumLit(TWO);
    let sum = Expr::Binop(Ok(NumBinop::Minus), &x, &two);
    assert_eq!(ctx.convert_val(&sum, start), PrimVal::Var((1, 0)));
    assert_eq!(
        ctx.convert_expr(&sum, start),
        PrimExpr::NumBinop(NumBinop::Minus, PrimVal::Var((0, 0)), PrimVal::NumLit(TWO))
    );
    ctx.add_stmt(start, PrimStmt::Print(vec![PrimVal::NumLit(TWO)], None));
    assert_eq!(block(ctx.cfg(), 0).len(), 2);
    assert_eq!(
        block(ctx.cfg(), 0)[1],
        PrimStmt::Print(vec![PrimVal::NumLit(TWO)], None)
    );
}
