use frawk_ast::ast1::{Expr, Stmt};
use frawk_ast::ast2::Context;
use frawk_ast::domtree::{dom_tree, NodeInfo, NODEINFO_UNINIT};
use frawk_ast::prim::NUM_ONE;

fn info(dfsnum: u32, parent: u32) -> NodeInfo {
    NodeInfo {
        dfsnum,
        idom: NODEINFO_UNINIT,
        sdom: NODEINFO_UNINIT,
        parent,
    }
}

#[test]
fn default_node_info_is_not_seen() {
    let n = NodeInfo::default();
    assert!(!n.seen());
    assert_eq!(n, info(NODEINFO_UNINIT, NODEINFO_UNINIT));
    assert!(info(0, NODEINFO_UNINIT).seen());
}

#[test]
fn single_node() {
    let one = Expr::NumLit(NUM_ONE);
    let s = Stmt::Expr(&one);
    let ctx = Context::from_stmt(&s);
    assert_eq!(dom_tree(&ctx), vec![info(0, NODEINFO_UNINIT)]);
}

#[test]
fn if_graph_visits_latest_edge_first() {
    let c = Expr::Var(1);
    let one = Expr::NumLit(NUM_ONE);
    let t = Stmt::Expr(&one);
    let s = Stmt::If(&c, &t, None);
    let ctx = Context::from_stmt(&s);
    // edges: 0->1, 1->2, 0->2; from 0 the search goes to 2 first.
    assert_eq!(
        dom_tree(&ctx),
        vec![info(0, NODEINFO_UNINIT), info(2, 0), info(1, 0)]
    );
}

#[test]
fn while_graph() {
    let c = Expr::Var(1);
    let one = Expr::NumLit(NUM_ONE);
    let body = Stmt::Expr(&one);
    let s = Stmt::While(&c, &body);
    let ctx = Context::from_stmt(&s);
    // edges: 0->1, 2->1, 1->2, 1->3
    assert_eq!(
        dom_tree(&ctx),
        vec![info(0, NODEINFO_UNINIT), info(1, 0), info(3, 1), info(2, 1)]
    );
}

#[test]
fn unreachable_nodes_stay_unset() {
    let mut ctx = Context::default();
    let one = Expr::NumLit(NUM_ONE);
    let s = Stmt::Expr(&one);
    ctx.standalone_block(&s);
    ctx.standalone_block(&s);
    assert_eq!(ctx.entry(), 0);
    assert_eq!(
        dom_tree(&ctx),
        vec![info(0, NODEINFO_UNINIT), NodeInfo::default()]
    );
}

#[test]
fn entry_other_than_first_node() {
    let c = Expr::Var(1);
    let one = Expr::NumLit(NUM_ONE);
    let body = Stmt::Expr(&one);
    let w = Stmt::While(&c, &body);
    let mut ctx = Context::default();
    ctx.standalone_block(&body);
    ctx.standalone_block(&w);
    // node 0 stays alone; the loop occupies nodes 1..=4 but the entry is 0
    let r = dom_tree(&ctx);
    assert_eq!(r[0], info(0, NODEINFO_UNINIT));
    for n in &r[1..] {
        assert!(!n.seen());
    }
}
