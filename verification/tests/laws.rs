use frawk_ast::ast1::{Expr, Stmt};
use frawk_ast::ast2::Context;
use frawk_ast::domtree::dom_tree;
use frawk_ast::ops::NumBinop;
use frawk_ast::prim::{PrimExpr, PrimVal, NUM_ONE};
use petgraph::graph::NodeIndex;

fn snapshot(ctx: &Context) -> (Vec<String>, Vec<(usize, usize, String)>) {
    let g = ctx.cfg();
    let blocks = (0..g.node_count())
        .map(|i| format!("{:?}", g.node_weight(NodeIndex::new(i)).unwrap()))
        .collect();
    let edges = g
        .raw_edges()
        .iter()
        .map(|e| (e.source().index(), e.target().index(), format!("{:?}", e.weight)))
        .collect();
    (blocks, edges)
}

#[test]
fn to_val_of_a_value_needs_no_block() {
    let mut ctx = Context::default();
    let v = ctx.to_val(PrimExpr::Val(PrimVal::NumLit(NUM_ONE)), 0);
    assert_eq!(v, PrimVal::NumLit(NUM_ONE));
    assert_eq!(ctx.cfg().node_count(), 0);
    // no fresh variable was used
    assert_eq!(ctx.fresh(), (0, 0));
}

#[test]
fn atoms_need_no_block() {
    let mut ctx = Context::default();
    let x = Expr::Var(3);
    assert_eq!(ctx.convert_expr(&x, 7), PrimExpr::Val(PrimVal::Var((0, 0))));
    assert_eq!(ctx.convert_val(&x, 7), PrimVal::Var((0, 0)));
    let one = Expr::NumLit(NUM_ONE);
    let sum = Expr::Binop(Ok(NumBinop::Plus), &x, &one);
    assert_eq!(
        ctx.convert_expr(&sum, 7),
        PrimExpr::NumBinop(NumBinop::Plus, PrimVal::Var((0, 0)), PrimVal::NumLit(NUM_ONE))
    );
    let e = Stmt::Expr(&sum);
    let empty = Stmt::Block(vec![]);
    let blk = Stmt::Block(vec![&e, &empty]);
    assert_eq!(ctx.convert_stmt(&blk, 7), 7);
    assert_eq!(ctx.cfg().node_count(), 0);
}

#[test]
fn empty_block_changes_nothing() {
    let one = Expr::NumLit(NUM_ONE);
    let s = Stmt::Expr(&one);
    let mut ctx = Context::default();
    let (start, _) = ctx.standalone_block(&s);
    let before = snapshot(&ctx);
    let empty = Stmt::Block(vec![]);
    assert_eq!(ctx.convert_stmt(&empty, start), start);
    assert_eq!(snapshot(&ctx), before);
}

#[test]
fn block_of_two_is_two_statements_in_turn() {
    let c = Expr::Var(1);
    let x = Expr::Var(2);
    let one = Expr::NumLit(NUM_ONE);
    let asg = Expr::Assign(&x, &one);
    let t = Stmt::Expr(&asg);
    let a = Stmt::If(&c, &t, None);
    let b = Stmt::While(&c, &t);
    let blk = Stmt::Block(vec![&a, &b]);

    let mut c1 = Context::default();
    let (o1, _) = c1.standalone_block(&t);
    let r1 = c1.convert_stmt(&blk, o1);

    let mut c2 = Context::default();
    let (o2, _) = c2.standalone_block(&t);
    let m = c2.convert_stmt(&a, o2);
    let r2 = c2.convert_stmt(&b, m);

    assert_eq!(r1, r2);
    assert_eq!(snapshot(&c1), snapshot(&c2));
}

#[test]
fn loop_update_is_appended_to_body() {
    let x = Expr::Var(2);
    let one = Expr::NumLit(NUM_ONE);
    let asg = Expr::Assign(&x, &one);
    let body = Stmt::Expr(&asg);
    let inc = Expr::AssignOp(&x, NumBinop::Plus, &one);
    let upd = Stmt::Expr(&inc);
    let blk = Stmt::Block(vec![&body, &upd]);

    let mut c1 = Context::default();
    let (o1, _) = c1.standalone_block(&body);
    let l1 = c1.make_loop(&body, Some(&upd), o1);

    let mut c2 = Context::default();
    let (o2, _) = c2.standalone_block(&body);
    let l2 = c2.make_loop(&blk, None, o2);

    assert_eq!(l1, l2);
    assert_eq!(snapshot(&c1), snapshot(&c2));
}

#[test]
fn lowered_graph_is_numbered_completely() {
    let c = Expr::Var(1);
    let m = Expr::Var(9);
    let one = Expr::NumLit(NUM_ONE);
    let t = Stmt::Expr(&one);
    let i = Stmt::If(&c, &t, Some(&t));
    let w = Stmt::While(&c, &i);
    let f = Stmt::ForEach(4, &m, &w);
    let fl = Stmt::For(Some(&t), None, Some(&t), &f);
    let blk = Stmt::Block(vec![&i, &fl, &w]);
    let ctx = Context::from_stmt(&blk);
    let n = ctx.cfg().node_count();
    let info = dom_tree(&ctx);
    assert_eq!(info.len(), n);
    let mut nums: Vec<u32> = info.iter().map(|x| x.dfsnum).collect();
    assert!(info.iter().all(|x| x.seen()));
    nums.sort();
    assert_eq!(nums, (0..n as u32).collect::<Vec<u32>>());
}
