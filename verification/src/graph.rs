use vstd::prelude::*;
use petgraph::graph::{Graph, NodeIndex};
use petgraph::{Directed, Direction};
use crate::prim::{NumTy, PrimStmt, PrimStmtModel, PrimVal};

verus! {

#[verifier::external_type_specification]
#[verifier::external_body]
#[verifier::reject_recursive_types(N)]
#[verifier::reject_recursive_types(E)]
#[verifier::reject_recursive_types(Ty)]
#[verifier::reject_recursive_types(Ix)]
pub struct ExGraph<N, E, Ty, Ix>(Graph<N, E, Ty, Ix>);

#[verifier::external_type_specification]
#[verifier::external_body]
pub struct ExDirected(Directed);

/// The index of a node of the control-flow graph.
pub type NodeIx = NumTy;

/// A basic block: a sequence of primitive statements.
pub type BasicBlock<'a> = Vec<PrimStmt<'a>>;

/// The control-flow graph. An edge carries the value whose truth selects it, or
/// `None` for the fall-through ("else") edge.
pub type Cfg<'a> = Graph<BasicBlock<'a>, Option<PrimVal<'a>>, Directed, NumTy>;

/// An edge: source node, target node and weight.
pub type CfgEdge<'a> = (NodeIx, NodeIx, Option<PrimVal<'a>>);

/// The basic blocks of a graph, indexed by node.
pub uninterp spec fn cfg_blocks(g: Cfg<'_>) -> Seq<Seq<PrimStmtModel<'_>>>;

/// The edges of a graph, in the order they were added.
pub uninterp spec fn cfg_edges(g: Cfg<'_>) -> Seq<CfgEdge<'_>>;

/// The targets of the edges out of `a`, most recently added first.
pub open spec fn out_targets(edges: Seq<CfgEdge>, a: NodeIx) -> Seq<NodeIx>
    decreases edges.len(),
{
    if edges.len() == 0 {
        Seq::empty()
    } else {
        let rest = out_targets(edges.drop_last(), a);
        if edges.last().0 == a {
            seq![edges.last().1] + rest
        } else {
            rest
        }
    }
}

/// The graph has an edge from `a` to `b`.
pub open spec fn has_edge(edges: Seq<CfgEdge>, a: NodeIx, b: NodeIx) -> bool {
    exists|i: int| 0 <= i < edges.len() && (#[trigger] edges[i]).0 == a && edges[i].1 == b
}

/// `b` is among the targets of the edges out of `a` exactly when the graph has
/// an edge from `a` to `b`.
pub proof fn lemma_out_targets_has_edge(edges: Seq<CfgEdge>, a: NodeIx, b: NodeIx)
    ensures
        out_targets(edges, a).contains(b) <==> has_edge(edges, a, b),
    decreases edges.len(),
{
    if edges.len() > 0 {
        let init = edges.drop_last();
        let rest = out_targets(init, a);
        let out = out_targets(edges, a);
        let last = edges.last();
        let li = edges.len() - 1;
        lemma_out_targets_has_edge(init, a, b);
        assert(edges[li] == last);
        // has_edge(edges) <==> has_edge(init) || the last edge is a -> b
        if has_edge(init, a, b) {
            let i = choose|i: int| 0 <= i < init.len() && (#[trigger] init[i]).0 == a && init[i].1 == b;
            assert(edges[i] == init[i]);
        }
        if has_edge(edges, a, b) {
            let i = choose|i: int| 0 <= i < edges.len() && (#[trigger] edges[i]).0 == a && edges[i].1 == b;
            if i < li {
                assert(init[i] == edges[i]);
            }
        }
        if last.0 == a {
            assert(out == seq![last.1] + rest);
            if rest.contains(b) {
                let j = choose|j: int| 0 <= j < rest.len() && rest[j] == b;
                assert(out[j + 1] == b);
            }
            if last.1 == b {
                assert(out[0] == b);
            }
            if out.contains(b) {
                let j = choose|j: int| 0 <= j < out.len() && out[j] == b;
                if j > 0 {
                    assert(rest[j - 1] == b);
                }
            }
        } else {
            assert(out == rest);
        }
    }
}

/// Consecutive nodes of `p` are joined by edges.
pub open spec fn is_path(edges: Seq<CfgEdge>, p: Seq<NodeIx>) -> bool {
    &&& p.len() >= 1
    &&& forall|j: int, k: int|
        0 <= j && k == j + 1 && k < p.len() ==> #[trigger] has_edge(edges, p[j], p[k])
}

/// Some path leads from `a` to `b`.
pub open spec fn reachable(edges: Seq<CfgEdge>, a: NodeIx, b: NodeIx) -> bool {
    exists|p: Seq<NodeIx>| is_path(edges, p) && p[0] == a && p.last() == b
}

/// Every edge of `e1` is at the same place in `e2`.
pub open spec fn edges_prefix(e1: Seq<CfgEdge>, e2: Seq<CfgEdge>) -> bool {
    &&& e1.len() <= e2.len()
    &&& forall|j: int| 0 <= j < e1.len() ==> #[trigger] e2[j] == e1[j]
}

pub proof fn lemma_reach_refl(edges: Seq<CfgEdge>, a: NodeIx)
    ensures
        reachable(edges, a, a),
{
    let p = seq![a];
    assert(is_path(edges, p));
    assert(p[0] == a && p.last() == a);
}

/// A path followed by an edge is a path.
pub proof fn lemma_reach_step(edges: Seq<CfgEdge>, a: NodeIx, b: NodeIx, c: NodeIx)
    requires
        reachable(edges, a, b),
        has_edge(edges, b, c),
    ensures
        reachable(edges, a, c),
{
    let q = choose|q: Seq<NodeIx>| is_path(edges, q) && q[0] == a && q.last() == b;
    let p = q.push(c);
    assert forall|i: int, k: int| 0 <= i && k == i + 1 && k < p.len() implies #[trigger] has_edge(
        edges,
        p[i],
        p[k],
    ) by {
        if k < q.len() {
            assert(p[i] == q[i] && p[k] == q[k]);
            assert(has_edge(edges, q[i], q[k]));
        } else {
            assert(p[i] == q.last());
        }
    }
    assert(is_path(edges, p));
    assert(p[0] == a && p.last() == c);
}

/// Reachability is transitive.
pub proof fn lemma_reach_trans(edges: Seq<CfgEdge>, a: NodeIx, b: NodeIx, c: NodeIx)
    requires
        reachable(edges, a, b),
        reachable(edges, b, c),
    ensures
        reachable(edges, a, c),
{
    let q = choose|q: Seq<NodeIx>| is_path(edges, q) && q[0] == a && q.last() == b;
    let r = choose|r: Seq<NodeIx>| is_path(edges, r) && r[0] == b && r.last() == c;
    let p = q + r.drop_first();
    assert forall|i: int, k: int| 0 <= i && k == i + 1 && k < p.len() implies #[trigger] has_edge(
        edges,
        p[i],
        p[k],
    ) by {
        if k < q.len() {
            assert(p[i] == q[i] && p[k] == q[k]);
            assert(has_edge(edges, q[i], q[k]));
        } else if i == q.len() - 1 {
            assert(p[i] == r[0]);
            assert(p[k] == r[1]);
            assert(has_edge(edges, r[0], r[1]));
        } else {
            let ri = i - q.len() + 1;
            assert(p[i] == r[ri] && p[k] == r[ri + 1]);
            assert(has_edge(edges, r[ri], r[ri + 1]));
        }
    }
    assert(is_path(edges, p));
    if r.len() == 1 {
        assert(p =~= q);
    }
    assert(p[0] == a && p.last() == c);
}

/// Adding edges keeps every path.
pub proof fn lemma_reach_mono(e1: Seq<CfgEdge>, e2: Seq<CfgEdge>)
    requires
        edges_prefix(e1, e2),
    ensures
        forall|a: NodeIx, b: NodeIx| #[trigger] has_edge(e1, a, b) ==> has_edge(e2, a, b),
        forall|a: NodeIx, b: NodeIx| #[trigger] reachable(e1, a, b) ==> reachable(e2, a, b),
{
    assert forall|a: NodeIx, b: NodeIx| #[trigger] has_edge(e1, a, b) implies has_edge(e2, a, b) by {
        let i = choose|i: int| 0 <= i < e1.len() && (#[trigger] e1[i]).0 == a && e1[i].1 == b;
        assert(e2[i] == e1[i]);
    }
    assert forall|a: NodeIx, b: NodeIx| #[trigger] reachable(e1, a, b) implies reachable(e2, a, b) by {
        let p = choose|p: Seq<NodeIx>| is_path(e1, p) && p[0] == a && p.last() == b;
        assert forall|i: int, k: int| 0 <= i && k == i + 1 && k < p.len() implies #[trigger] has_edge(
            e2,
            p[i],
            p[k],
        ) by {
            assert(has_edge(e1, p[i], p[k]));
        }
        assert(is_path(e2, p));
    }
}

/// The statements of a block, each by its view.
pub open spec fn block_model<'a>(b: Seq<PrimStmt<'a>>) -> Seq<PrimStmtModel<'a>> {
    b.map_values(|s: PrimStmt<'a>| s@)
}

/// `Graph::default`: an empty graph.
#[verifier::external_body]
pub(crate) fn cfg_new<'a>() -> (g: Cfg<'a>)
    ensures
        cfg_blocks(g) == Seq::<Seq<PrimStmtModel<'a>>>::empty(),
        cfg_edges(g) == Seq::<CfgEdge<'a>>::empty(),
{
    Graph::default()
}

/// `Graph::node_count`: the number of nodes.
#[verifier::external_body]
pub(crate) fn cfg_node_count(g: &Cfg) -> (n: usize)
    ensures
        n == cfg_blocks(*g).len(),
{
    g.node_count()
}

/// `Graph::add_node`: appends a node holding `block`; its index is the old node
/// count. It panics when the count has reached the largest `u32`.
#[verifier::external_body]
pub(crate) fn cfg_add_node<'a>(g: &mut Cfg<'a>, block: BasicBlock<'a>) -> (ix: NodeIx)
    requires
        cfg_blocks(*old(g)).len() < u32::MAX,
    ensures
        ix == cfg_blocks(*old(g)).len(),
        cfg_blocks(*final(g)) == cfg_blocks(*old(g)).push(block_model(block@)),
        cfg_edges(*final(g)) == cfg_edges(*old(g)),
{
    g.add_node(block).index() as NodeIx
}

/// `Graph::add_edge`: appends an edge from `a` to `b`. It panics when a node does
/// not exist or the edge count has reached the largest `u32`.
#[verifier::external_body]
pub(crate) fn cfg_add_edge<'a>(g: &mut Cfg<'a>, a: NodeIx, b: NodeIx, w: Option<PrimVal<'a>>)
    requires
        a < cfg_blocks(*old(g)).len(),
        b < cfg_blocks(*old(g)).len(),
        cfg_edges(*old(g)).len() < u32::MAX,
    ensures
        cfg_blocks(*final(g)) == cfg_blocks(*old(g)),
        cfg_edges(*final(g)) == cfg_edges(*old(g)).push((a, b, w)),
{
    g.add_edge(NodeIndex::new(a as usize), NodeIndex::new(b as usize), w);
}

/// `Graph::node_weight_mut`, then `Vec::push` on the block it gives: appends `s`
/// to the block of node `at`, which must exist.
#[verifier::external_body]
pub(crate) fn cfg_push_stmt<'a>(g: &mut Cfg<'a>, at: NodeIx, s: PrimStmt<'a>)
    requires
        at < cfg_blocks(*old(g)).len(),
    ensures
        cfg_blocks(*final(g)) == cfg_blocks(*old(g)).update(
            at as int,
            cfg_blocks(*old(g))[at as int].push(s@),
        ),
        cfg_edges(*final(g)) == cfg_edges(*old(g)),
{
    g.node_weight_mut(NodeIndex::new(at as usize)).unwrap().push(s);
}

/// `Graph::neighbors_directed` with `Direction::Outgoing`: the targets of the
/// edges out of `a`, most recently added first (as the crate documents for a
/// directed graph), each as its index.
#[verifier::external_body]
pub(crate) fn cfg_successors(g: &Cfg, a: NodeIx) -> (r: Vec<NodeIx>)
    ensures
        r@ == out_targets(cfg_edges(*g), a),
{
    g.neighbors_directed(NodeIndex::new(a as usize), Direction::Outgoing).map(
        |n: NodeIndex<NumTy>| n.index() as NodeIx,
    ).collect()
}

} // verus!
