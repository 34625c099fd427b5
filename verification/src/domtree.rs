//! Depth-first numbering of the control-flow graph from its entry node: the
//! first phase of dominator-tree construction.
use vstd::prelude::*;
use crate::ast2::Context;
use crate::graph::{
    cfg_node_count, cfg_successors, has_edge, is_path, lemma_out_targets_has_edge, out_targets,
    reachable, CfgEdge, NodeIx,
};
use crate::model::CtxModel;
use crate::prim::NumTy;

verus! {

/// The value of a `NodeInfo` field that has not been set.
pub const NODEINFO_UNINIT: NumTy = 0xFFFF_FFFFu32;

/// What dominator-tree construction records about a node.
#[derive(Debug, Copy, Clone, PartialEq, Eq)]
pub struct NodeInfo {
    /// The order in which the depth-first search reached the node.
    pub dfsnum: NumTy,
    /// The immediate dominator.
    pub idom: NumTy,
    /// The semidominator.
    pub sdom: NumTy,
    /// The parent in the depth-first spanning tree.
    pub parent: NumTy,
}

impl NodeInfo {
    /// A node that the search has not reached: every field unset.
    pub open spec fn uninit() -> NodeInfo {
        NodeInfo {
            dfsnum: NODEINFO_UNINIT,
            idom: NODEINFO_UNINIT,
            sdom: NODEINFO_UNINIT,
            parent: NODEINFO_UNINIT,
        }
    }

    pub open spec fn is_seen(self) -> bool {
        self.dfsnum != NODEINFO_UNINIT
    }

    /// Whether the search has reached the node.
    pub fn seen(&self) -> (r: bool)
        ensures
            r == self.is_seen(),
    {
        self.dfsnum != NODEINFO_UNINIT
    }
}

impl Default for NodeInfo {
    fn default() -> (r: NodeInfo)
        ensures
            r == NodeInfo::uninit(),
    {
        NodeInfo {
            dfsnum: NODEINFO_UNINIT,
            idom: NODEINFO_UNINIT,
            sdom: NODEINFO_UNINIT,
            parent: NODEINFO_UNINIT,
        }
    }
}

/// The state of the search: what is known of each node, and the nodes reached,
/// in the order they were reached.
pub struct DfsState {
    pub info: Seq<NodeInfo>,
    pub order: Seq<NodeIx>,
}

/// The state before the search: `n` unreached nodes.
pub open spec fn dfs_init(n: nat) -> DfsState {
    DfsState { info: Seq::new(n, |i: int| NodeInfo::uninit()), order: Seq::empty() }
}

/// Marks `cur` as reached from `parent`, numbered after the nodes reached
/// before it.
pub open spec fn dfs_mark(st: DfsState, cur: NodeIx, parent: NumTy) -> DfsState {
    DfsState {
        info: st.info.update(
            cur as int,
            NodeInfo { dfsnum: st.order.len() as NumTy, parent: parent, ..st.info[cur as int] },
        ),
        order: st.order.push(cur),
    }
}

/// Visits `cur`, reached from `parent`: numbers it, then visits in turn each of
/// its successors not yet reached, most recently added edge first, stopping
/// as soon as every node has been reached.
pub open spec fn dfs_visit(edges: Seq<CfgEdge>, st: DfsState, cur: NodeIx, parent: NumTy) -> DfsState
    decreases st.info.len() - st.order.len(), 0nat, 0nat,
{
    if st.order.len() < st.info.len() && cur < st.info.len() {
        dfs_succs(edges, dfs_mark(st, cur, parent), cur, out_targets(edges, cur), 0)
    } else {
        st
    }
}

/// Visits the successors `succs[i..]` of `cur` that are not yet reached.
pub open spec fn dfs_succs(
    edges: Seq<CfgEdge>,
    st: DfsState,
    cur: NodeIx,
    succs: Seq<NodeIx>,
    i: int,
) -> DfsState
    decreases st.info.len() - st.order.len(), 1nat, succs.len() - i,
{
    if 0 <= i < succs.len() && st.order.len() < st.info.len() {
        let n = succs[i];
        if st.info[n as int].is_seen() {
            dfs_succs(edges, st, cur, succs, i + 1)
        } else {
            let st2 = dfs_visit(edges, st, n, cur);
            if st.order.len() <= st2.order.len() <= st2.info.len() && st2.info.len()
                == st.info.len() {
                dfs_succs(edges, st2, cur, succs, i + 1)
            } else {
                st2
            }
        }
    } else {
        st
    }
}

/// The information computed for each node of a context's graph.
pub open spec fn spec_dom_tree(m: CtxModel) -> Seq<NodeInfo> {
    dfs_visit(m.edges, dfs_init(m.blocks.len()), m.entry, NODEINFO_UNINIT).info
}

/// Every edge joins nodes below `n`.
pub open spec fn edges_within(edges: Seq<CfgEdge>, n: nat) -> bool {
    forall|i: int| 0 <= i < edges.len() ==> (#[trigger] edges[i]).0 < n && edges[i].1 < n
}

/// The nodes below `n`.
pub open spec fn node_range(n: nat) -> Set<NodeIx> {
    Set::new(|v: NodeIx| v < n)
}

pub proof fn lemma_node_range(n: nat)
    requires
        n <= u32::MAX,
    ensures
        node_range(n).finite(),
        node_range(n).len() == n,
    decreases n,
{
    if n == 0 {
        assert(node_range(n) =~= Set::empty());
    } else {
        lemma_node_range((n - 1) as nat);
        assert(node_range((n - 1) as nat).insert((n - 1) as NodeIx) =~= node_range(n));
    }
}

/// A sequence of distinct nodes below `n` has at most `n` elements; at most
/// `n - 1` if it misses one of them; and it holds them all if it has `n`.
pub proof fn lemma_pigeonhole(s: Seq<NodeIx>, n: nat)
    requires
        n <= u32::MAX,
        s.no_duplicates(),
        forall|k: int| 0 <= k < s.len() ==> s[k] < n,
    ensures
        s.len() <= n,
        s.len() == n ==> forall|v: NodeIx| v < n ==> s.contains(v),
        (exists|v: NodeIx| v < n && !s.contains(v)) ==> s.len() < n,
{
    lemma_node_range(n);
    s.unique_seq_to_set();
    assert(s.to_set().subset_of(node_range(n)));
    vstd::set_lib::lemma_len_subset(s.to_set(), node_range(n));
    if s.len() == n {
        vstd::set_lib::lemma_subset_equality(s.to_set(), node_range(n));
        assert forall|v: NodeIx| v < n implies s.contains(v) by {
            assert(node_range(n).contains(v));
            assert(s.to_set().contains(v));
        }
    }
    if exists|v: NodeIx| v < n && !s.contains(v) {
        let v = choose|v: NodeIx| v < n && !s.contains(v);
        assert(s.to_set().subset_of(node_range(n).remove(v)));
        vstd::set_lib::lemma_len_subset(s.to_set(), node_range(n).remove(v));
    }
}

/// The targets of the edges out of a node are nodes.
pub proof fn lemma_out_targets_within(edges: Seq<CfgEdge>, n: nat, a: NodeIx)
    requires
        edges_within(edges, n),
    ensures
        forall|j: int| 0 <= j < out_targets(edges, a).len() ==> out_targets(edges, a)[j] < n,
    decreases edges.len(),
{
    if edges.len() > 0 {
        assert(edges_within(edges.drop_last(), n)) by {
            assert forall|i: int| 0 <= i < edges.drop_last().len() implies (
            #[trigger] edges.drop_last()[i]).0 < n && edges.drop_last()[i].1 < n by {
                assert(edges.drop_last()[i] == edges[i]);
            }
        }
        lemma_out_targets_within(edges.drop_last(), n, a);
        assert(edges[edges.len() - 1] == edges.last());
        let rest = out_targets(edges.drop_last(), a);
        if edges.last().0 == a {
            assert forall|j: int| 0 <= j < out_targets(edges, a).len() implies out_targets(
                edges,
                a,
            )[j] < n by {
                if j > 0 {
                    assert(out_targets(edges, a)[j] == rest[j - 1]);
                }
            }
        }
    }
}

/// `v` is reached, was reached from a reached node with a smaller number, along
/// an edge.
pub open spec fn tree_edge(edges: Seq<CfgEdge>, st: DfsState, v: NodeIx) -> bool {
    let p = st.info[v as int].parent;
    &&& p < st.info.len()
    &&& st.info[p as int].is_seen()
    &&& st.info[p as int].dfsnum < st.info[v as int].dfsnum
    &&& out_targets(edges, p).contains(v)
}

/// A consistent state of the search: the reached nodes are distinct, are
/// exactly those marked reached, are numbered by their position, and each but
/// the first hangs from a reached parent by an edge; nothing else is set.
pub open spec fn dfs_wf(edges: Seq<CfgEdge>, st: DfsState) -> bool {
    let n = st.info.len();
    &&& n <= u32::MAX
    &&& edges_within(edges, n)
    &&& st.order.no_duplicates()
    &&& forall|k: int| 0 <= k < st.order.len() ==> #[trigger] st.order[k] < n
    &&& forall|v: NodeIx| v < n ==> (#[trigger] st.info[v as int].is_seen() <==> st.order.contains(v))
    &&& forall|k: int|
        0 <= k < st.order.len() ==> #[trigger] st.info[st.order[k] as int].dfsnum == k
    &&& forall|v: NodeIx|
        v < n ==> #[trigger] st.info[v as int].idom == NODEINFO_UNINIT && st.info[v as int].sdom
            == NODEINFO_UNINIT
    &&& forall|v: NodeIx| v < n && !#[trigger] st.info[v as int].is_seen() ==> st.info[v as int] == NodeInfo::uninit()
    &&& forall|k: int| 1 <= k < st.order.len() ==> tree_edge(edges, st, #[trigger] st.order[k])
}

/// `r` continues `st`: the nodes reached in `st` come first in `r`, with the
/// same information.
pub open spec fn dfs_grows(st: DfsState, r: DfsState) -> bool {
    &&& r.info.len() == st.info.len()
    &&& r.order.len() >= st.order.len()
    &&& forall|k: int| 0 <= k < st.order.len() ==> #[trigger] r.order[k] == st.order[k]
    &&& forall|v: NodeIx|
        v < st.info.len() && #[trigger] st.info[v as int].is_seen() ==> r.info[v as int] == st.info[v as int]
}

/// Every successor of `v` is reached.
pub open spec fn closed(edges: Seq<CfgEdge>, st: DfsState, v: NodeIx) -> bool {
    forall|j: int|
        0 <= j < out_targets(edges, v).len() ==> #[trigger] st.info[out_targets(edges, v)[j] as int].is_seen()
}

pub proof fn lemma_grows_trans(a: DfsState, b: DfsState, c: DfsState)
    requires
        dfs_grows(a, b),
        dfs_grows(b, c),
    ensures
        dfs_grows(a, c),
{
    assert forall|v: NodeIx| v < a.info.len() && #[trigger] a.info[v as int].is_seen() implies c.info[v as int]
        == a.info[v as int] by {
        assert(b.info[v as int] == a.info[v as int]);
    }
}

/// In a consistent state a node is unreached exactly when it is not in the
/// order, so reaching it is possible only while some node is unreached.
pub proof fn lemma_dfs_wf_counts(edges: Seq<CfgEdge>, st: DfsState)
    requires
        dfs_wf(edges, st),
    ensures
        st.order.len() <= st.info.len(),
        st.order.len() == st.info.len() ==> forall|v: NodeIx|
            v < st.info.len() ==> #[trigger] st.info[v as int].is_seen(),
        (exists|v: NodeIx| v < st.info.len() && !st.info[v as int].is_seen()) ==> st.order.len()
            < st.info.len(),
{
    lemma_pigeonhole(st.order, st.info.len());
    if st.order.len() == st.info.len() {
        assert forall|v: NodeIx| v < st.info.len() implies #[trigger] st.info[v as int].is_seen() by {
            assert(st.order.contains(v));
        }
    }
    if exists|v: NodeIx| v < st.info.len() && !st.info[v as int].is_seen() {
        let v = choose|v: NodeIx| v < st.info.len() && !st.info[v as int].is_seen();
        assert(!st.order.contains(v));
    }
}

/// Marking an unreached node keeps the state consistent and continues it.
pub proof fn lemma_dfs_mark(edges: Seq<CfgEdge>, st: DfsState, cur: NodeIx, parent: NumTy)
    requires
        dfs_wf(edges, st),
        cur < st.info.len(),
        !st.info[cur as int].is_seen(),
        st.order.len() > 0 ==> parent < st.info.len() && st.info[parent as int].is_seen()
            && out_targets(edges, parent).contains(cur),
    ensures
        st.order.len() < st.info.len(),
        dfs_wf(edges, dfs_mark(st, cur, parent)),
        dfs_grows(st, dfs_mark(st, cur, parent)),
        dfs_mark(st, cur, parent).info[cur as int].is_seen(),
        dfs_mark(st, cur, parent).info[cur as int].dfsnum == st.order.len(),
        dfs_mark(st, cur, parent).info[cur as int].parent == parent,
{
    let n = st.info.len();
    let k = st.order.len();
    lemma_dfs_wf_counts(edges, st);
    assert(!st.order.contains(cur));
    let st1 = dfs_mark(st, cur, parent);
    assert(st1.info[cur as int].dfsnum == k);
    assert(st1.order.no_duplicates()) by {
        assert forall|i: int, j: int| 0 <= i < j < st1.order.len() implies st1.order[i]
            != st1.order[j] by {
            if j == k {
                assert(st1.order[i] == st.order[i]);
            }
        }
    }
    assert forall|v: NodeIx| v < n implies (#[trigger] st1.info[v as int].is_seen()
        <==> st1.order.contains(v)) by {
        if v == cur {
            assert(st1.order[k as int] == cur);
        } else {
            assert(st1.info[v as int] == st.info[v as int]);
            if st.order.contains(v) {
                let j = choose|j: int| 0 <= j < st.order.len() && st.order[j] == v;
                assert(st1.order[j] == v);
            }
            if st1.order.contains(v) {
                let j = choose|j: int| 0 <= j < st1.order.len() && st1.order[j] == v;
                assert(st.order[j] == v);
            }
        }
    }
    assert forall|j: int| 0 <= j < st1.order.len() implies #[trigger] st1.info[st1.order[j] as int].dfsnum
        == j by {
        if j < k {
            assert(st1.order[j] == st.order[j]);
            assert(st.order[j] != cur);
        }
    }
    assert forall|j: int| 1 <= j < st1.order.len() implies tree_edge(
        edges,
        st1,
        #[trigger] st1.order[j],
    ) by {
        if j < k {
            let v = st.order[j];
            assert(st1.order[j] == v);
            assert(tree_edge(edges, st, v));
            let p = st.info[v as int].parent;
            assert(v != cur);
            assert(p != cur);
        } else {
            assert(parent != cur);
            let w = choose|w: int| 0 <= w < st.order.len() && st.order[w] == parent;
            assert(st.info[st.order[w] as int].dfsnum == w);
        }
    }
    assert(dfs_wf(edges, st1));
    assert(dfs_grows(st, st1)) by {
        assert forall|v: NodeIx| v < n && #[trigger] st.info[v as int].is_seen() implies st1.info[v as int]
            == st.info[v as int] by {
            assert(v != cur);
        }
    }
}

/// Visiting an unreached node keeps the state consistent, continues it,
/// numbers the node next, and leaves every node it reached with all of its
/// successors reached.
pub proof fn lemma_dfs_visit(edges: Seq<CfgEdge>, st: DfsState, cur: NodeIx, parent: NumTy)
    requires
        dfs_wf(edges, st),
        cur < st.info.len(),
        !st.info[cur as int].is_seen(),
        st.order.len() > 0 ==> parent < st.info.len() && st.info[parent as int].is_seen()
            && out_targets(edges, parent).contains(cur),
    ensures
        dfs_wf(edges, dfs_visit(edges, st, cur, parent)),
        dfs_grows(st, dfs_visit(edges, st, cur, parent)),
        dfs_visit(edges, st, cur, parent).order.len() > st.order.len(),
        dfs_visit(edges, st, cur, parent).order[st.order.len() as int] == cur,
        dfs_visit(edges, st, cur, parent).info[cur as int].is_seen(),
        dfs_visit(edges, st, cur, parent).info[cur as int].dfsnum == st.order.len(),
        dfs_visit(edges, st, cur, parent).info[cur as int].parent == parent,
        forall|k: int|
            st.order.len() <= k < dfs_visit(edges, st, cur, parent).order.len() ==> closed(
                edges,
                dfs_visit(edges, st, cur, parent),
                #[trigger] dfs_visit(edges, st, cur, parent).order[k],
            ),
    decreases st.info.len() - st.order.len(), 0nat, 0nat,
{
    let k = st.order.len();
    lemma_dfs_mark(edges, st, cur, parent);
    let st1 = dfs_mark(st, cur, parent);
    let succs = out_targets(edges, cur);
    lemma_dfs_succs(edges, st1, cur, succs, 0, k as int);
    let r = dfs_succs(edges, st1, cur, succs, 0);
    assert(r == dfs_visit(edges, st, cur, parent));
    lemma_grows_trans(st, st1, r);
    assert(st1.info[cur as int].is_seen());
}

/// Visiting the successors `succs[i..]` of `cur` keeps the state consistent,
/// continues it, and leaves `cur` and every node reached after it with all of
/// their successors reached.
pub proof fn lemma_dfs_succs(
    edges: Seq<CfgEdge>,
    st: DfsState,
    cur: NodeIx,
    succs: Seq<NodeIx>,
    i: int,
    b: int,
)
    requires
        dfs_wf(edges, st),
        succs == out_targets(edges, cur),
        0 <= b < st.order.len(),
        st.order[b] == cur,
        0 <= i <= succs.len(),
        forall|j: int| 0 <= j < i ==> #[trigger] st.info[succs[j] as int].is_seen(),
        forall|k: int| b < k < st.order.len() ==> closed(edges, st, #[trigger] st.order[k]),
    ensures
        dfs_wf(edges, dfs_succs(edges, st, cur, succs, i)),
        dfs_grows(st, dfs_succs(edges, st, cur, succs, i)),
        forall|k: int|
            b <= k < dfs_succs(edges, st, cur, succs, i).order.len() ==> closed(
                edges,
                dfs_succs(edges, st, cur, succs, i),
                #[trigger] dfs_succs(edges, st, cur, succs, i).order[k],
            ),
    decreases st.info.len() - st.order.len(), 1nat, succs.len() - i,
{
    let n = st.info.len();
    lemma_out_targets_within(edges, n, cur);
    lemma_dfs_wf_counts(edges, st);
    assert(st.order.contains(cur));
    if i < succs.len() && st.order.len() < n {
        let v = succs[i];
        if st.info[v as int].is_seen() {
            lemma_dfs_succs(edges, st, cur, succs, i + 1, b);
        } else {
            assert(succs.contains(v));
            lemma_dfs_visit(edges, st, v, cur);
            let st2 = dfs_visit(edges, st, v, cur);
            lemma_dfs_wf_counts(edges, st2);
            assert(st2.order[b] == cur);
            assert forall|j: int| 0 <= j < i + 1 implies #[trigger] st2.info[succs[j] as int].is_seen() by {
                if j < i {
                    assert(st.info[succs[j] as int].is_seen());
                    assert(st2.info[succs[j] as int] == st.info[succs[j] as int]);
                }
            }
            assert forall|k: int| b < k < st2.order.len() implies closed(
                edges,
                st2,
                #[trigger] st2.order[k],
            ) by {
                if k < st.order.len() {
                    let w = st.order[k];
                    assert(st2.order[k] == w);
                    assert(closed(edges, st, w));
                    assert forall|j: int| 0 <= j < out_targets(edges, w).len() implies #[trigger] st2.info[out_targets(
                        edges,
                        w,
                    )[j] as int].is_seen() by {
                        let u = out_targets(edges, w)[j];
                        assert(st.info[u as int].is_seen());
                        lemma_out_targets_within(edges, n, w);
                        assert(st2.info[u as int] == st.info[u as int]);
                    }
                }
            }
            lemma_dfs_succs(edges, st2, cur, succs, i + 1, b);
            lemma_grows_trans(st, st2, dfs_succs(edges, st2, cur, succs, i + 1));
        }
    } else {
        assert forall|k: int| b <= k < st.order.len() implies closed(edges, st, #[trigger] st.order[k]) by {
            if k == b {
                assert forall|j: int| 0 <= j < out_targets(edges, cur).len() implies #[trigger] st.info[out_targets(
                    edges,
                    cur,
                )[j] as int].is_seen() by {
                    if st.order.len() == n {
                        assert(out_targets(edges, cur)[j] < n);
                    }
                }
            }
        }
    }
}

/// Builds the dominator-tree information of a context's graph.
struct DomTreeBuilder<'a, 'b> {
    /// The context whose graph is searched.
    ctx: &'a Context<'b>,
    /// What is known of each node, indexed by node.
    info: Vec<NodeInfo>,
    /// The nodes reached, in the order they were reached.
    dfs: Vec<NodeIx>,
}

/// The dominator-tree information of each node of `ctx`'s graph, searched from
/// the entry node. So far the search numbers the nodes and records the
/// spanning tree; dominators are not yet computed.
pub fn dom_tree<'a>(ctx: &Context<'a>) -> (r: Vec<NodeInfo>)
    requires
        ctx.wf(),
        ctx@.entry < ctx@.blocks.len(),
    ensures
        r@ == spec_dom_tree(ctx@),
{
    DomTreeBuilder::new(ctx).tree()
}

impl<'a, 'b> DomTreeBuilder<'a, 'b> {
    spec fn state(&self) -> DfsState {
        DfsState { info: self.info@, order: self.dfs@ }
    }

    spec fn edges(&self) -> Seq<CfgEdge<'b>> {
        self.ctx@.edges
    }

    fn new(ctx: &'a Context<'b>) -> (r: Self)
        requires
            ctx.wf(),
        ensures
            r.ctx == ctx,
            r.state() == dfs_init(ctx@.blocks.len()),
    {
        let n = cfg_node_count(ctx.cfg());
        let mut info: Vec<NodeInfo> = Vec::new();
        let mut i: usize = 0;
        while i < n
            invariant
                0 <= i <= n,
                info@ == Seq::new(i as nat, |j: int| NodeInfo::uninit()),
            decreases n - i,
        {
            info.push(NodeInfo::default());
            i = i + 1;
            proof {
                assert(info@ =~= Seq::new(i as nat, |j: int| NodeInfo::uninit()));
            }
        }
        let r = DomTreeBuilder { ctx: ctx, info: info, dfs: Vec::new() };
        assert(r.state().order =~= dfs_init(ctx@.blocks.len()).order);
        r
    }

    /// The number of nodes of the graph, which is the length of `info`.
    fn num_nodes(&self) -> (r: NumTy)
        requires
            self.ctx.wf(),
            self.info.len() == self.ctx@.blocks.len(),
        ensures
            r == self.ctx@.blocks.len(),
            r == self.info.len(),
    {
        self.info.len() as NumTy
    }

    fn seen(&self) -> (r: NumTy)
        requires
            self.dfs.len() <= u32::MAX,
        ensures
            r == self.dfs.len(),
    {
        self.dfs.len() as NumTy
    }

    fn at(&self, ix: NodeIx) -> (r: &NodeInfo)
        requires
            ix < self.info.len(),
        ensures
            *r == self.info@[ix as int],
    {
        &self.info[ix as usize]
    }

    fn at_mut(&mut self, ix: NodeIx) -> (r: &mut NodeInfo)
        requires
            ix < old(self).info.len(),
        ensures
            *r == old(self).info@[ix as int],
            final(self).info@ == old(self).info@.update(ix as int, *final(r)),
            final(self).dfs == old(self).dfs,
            final(self).ctx == old(self).ctx,
    {
        &mut self.info[ix as usize]
    }

    /// Visits `cur_node`, reached from `parent`.
    fn dfs(&mut self, cur_node: NodeIx, parent: NumTy)
        requires
            old(self).ctx.wf(),
            dfs_wf(old(self).edges(), old(self).state()),
            old(self).info.len() == old(self).ctx@.blocks.len(),
            cur_node < old(self).info.len(),
            !old(self).info@[cur_node as int].is_seen(),
            old(self).dfs.len() > 0 ==> parent < old(self).info.len()
                && old(self).info@[parent as int].is_seen() && out_targets(
                old(self).edges(),
                parent,
            ).contains(cur_node),
        ensures
            final(self).state() == dfs_visit(old(self).edges(), old(self).state(), cur_node, parent),
            final(self).ctx == old(self).ctx,
            dfs_wf(final(self).edges(), final(self).state()),
            final(self).info.len() == old(self).info.len(),
            final(self).info@[cur_node as int].is_seen(),
        decreases old(self).info.len() - old(self).dfs.len(),
    {
        let ghost edges = self.edges();
        let ghost st0 = self.state();
        proof {
            lemma_dfs_visit(edges, st0, cur_node, parent);
            lemma_dfs_wf_counts(edges, st0);
        }
        {
            let seen_so_far = self.seen();
            let info = self.at_mut(cur_node);
            info.dfsnum = seen_so_far;
            info.parent = parent;
        }
        self.dfs.push(cur_node);
        let ghost st1 = self.state();
        let succs = cfg_successors(self.ctx.cfg(), cur_node);
        proof {
            lemma_dfs_mark(edges, st0, cur_node, parent);
            assert(st1.info =~= dfs_mark(st0, cur_node, parent).info);
            assert(st1 == dfs_mark(st0, cur_node, parent));
            assert(dfs_visit(edges, st0, cur_node, parent) == dfs_succs(edges, st1, cur_node, succs@, 0));
            lemma_out_targets_within(edges, st0.info.len(), cur_node);
        }
        let mut i: usize = 0;
        while i < succs.len()
            invariant
                0 <= i <= succs@.len(),
                succs@ == out_targets(edges, cur_node),
                edges == self.edges(),
                self.info.len() == st0.info.len(),
                self.info.len() == self.ctx@.blocks.len(),
                self.ctx == old(self).ctx,
                self.ctx.wf(),
                dfs_wf(edges, self.state()),
                self.state().info[cur_node as int].is_seen(),
                self.dfs.len() > st0.order.len(),
                st0.order.len() == old(self).dfs.len(),
                st0.info.len() == old(self).info.len(),
                cur_node < self.info.len(),
                forall|j: int| 0 <= j < succs@.len() ==> succs@[j] < self.info.len(),
                dfs_succs(edges, self.state(), cur_node, succs@, i as int) == dfs_succs(
                    edges,
                    st1,
                    cur_node,
                    succs@,
                    0,
                ),
            ensures
                self.state() == dfs_succs(edges, st1, cur_node, succs@, 0),
                self.ctx == old(self).ctx,
            decreases succs@.len() - i,
        {
            let ghost st = self.state();
            proof {
                lemma_dfs_wf_counts(edges, st);
            }
            if self.seen() == self.num_nodes() {
                break;
            }
            let n = succs[i];
            if self.at(n).seen() {
                i = i + 1;
                continue;
            }
            proof {
                assert(succs@.contains(n));
                lemma_dfs_visit(edges, st, n, cur_node);
                lemma_dfs_mark(edges, st, n, cur_node);
                lemma_dfs_wf_counts(edges, dfs_visit(edges, st, n, cur_node));
                assert(self.info.len() - self.dfs.len() < old(self).info.len() - old(self).dfs.len());
            }
            self.dfs(n, cur_node);
            i = i + 1;
        }
    }

    fn tree(self) -> (r: Vec<NodeInfo>)
        requires
            self.state() == dfs_init(self.ctx@.blocks.len()),
            self.ctx.wf(),
            self.ctx@.entry < self.ctx@.blocks.len(),
        ensures
            r@ == spec_dom_tree(self.ctx@),
    {
        let ghost edges = self.edges();
        proof {
            let st = self.state();
            assert(st.order.len() == 0);
            assert(edges_within(edges, st.info.len()));
            assert forall|v: NodeIx| v < st.info.len() implies (#[trigger] st.info[v as int].is_seen()
                <==> st.order.contains(v)) by {
                assert(st.info[v as int] == NodeInfo::uninit());
            }
            assert(dfs_wf(edges, st));
        }
        let mut builder = self;
        let entry = builder.ctx.entry();
        builder.dfs(entry, NODEINFO_UNINIT);
        builder.info
    }
}

/// When every reached node has all its successors reached, every node on a
/// path from a reached node is reached.
proof fn lemma_path_reached(edges: Seq<CfgEdge>, st: DfsState, p: Seq<NodeIx>, j: int)
    requires
        dfs_wf(edges, st),
        is_path(edges, p),
        p[0] < st.info.len(),
        st.info[p[0] as int].is_seen(),
        forall|v: NodeIx| v < st.info.len() && #[trigger] st.info[v as int].is_seen() ==> closed(edges, st, v),
        0 <= j < p.len(),
    ensures
        p[j] < st.info.len(),
        st.info[p[j] as int].is_seen(),
    decreases j,
{
    if j > 0 {
        lemma_path_reached(edges, st, p, j - 1);
        let a = p[j - 1];
        assert(has_edge(edges, p[j - 1], p[j]));
        lemma_out_targets_has_edge(edges, a, p[j]);
        lemma_out_targets_within(edges, st.info.len(), a);
        assert(closed(edges, st, a));
        let w = choose|w: int| 0 <= w < out_targets(edges, a).len() && out_targets(edges, a)[w] == p[j];
        assert(st.info[out_targets(edges, a)[w] as int].is_seen());
    }
}

/// Every reached node is reachable from the first one, along the spanning tree.
proof fn lemma_reached_path(edges: Seq<CfgEdge>, st: DfsState, k: int)
    requires
        dfs_wf(edges, st),
        0 <= k < st.order.len(),
    ensures
        reachable(edges, st.order[0], st.order[k]),
    decreases k,
{
    let v = st.order[k];
    if k == 0 {
        let p = seq![v];
        assert(is_path(edges, p));
        assert(p[0] == st.order[0] && p.last() == v);
    } else {
        assert(tree_edge(edges, st, v));
        let par = st.info[v as int].parent;
        assert(st.order.contains(par));
        let j = choose|j: int| 0 <= j < st.order.len() && st.order[j] == par;
        assert(st.info[st.order[j] as int].dfsnum == j);
        assert(st.info[st.order[k] as int].dfsnum == k);
        lemma_reached_path(edges, st, j);
        let q = choose|q: Seq<NodeIx>| is_path(edges, q) && q[0] == st.order[0] && q.last() == par;
        lemma_out_targets_has_edge(edges, par, v);
        let p = q.push(v);
        assert forall|a: int, b: int| 0 <= a && b == a + 1 && b < p.len() implies #[trigger] has_edge(
            edges,
            p[a],
            p[b],
        ) by {
            if b < q.len() {
                assert(p[a] == q[a] && p[b] == q[b]);
                assert(has_edge(edges, q[a], q[b]));
            } else {
                assert(p[a] == q.last());
            }
        }
        assert(is_path(edges, p));
        assert(p[0] == q[0]);
        assert(p[0] == st.order[0] && p.last() == v);
    }
}

/// The search from the entry of a well-formed context's graph reaches exactly
/// the nodes reachable from the entry. It numbers the reached nodes
/// 0, 1, 2, ... without gaps or repeats, the entry first; each other reached
/// node records as its parent a reached node with a smaller number and an
/// edge to it; no other field is set, and unreached nodes keep every field
/// unset.
pub proof fn lemma_dom_tree(m: CtxModel)
    requires
        m.wf(),
        m.fits(),
        m.entry < m.blocks.len(),
    ensures
        spec_dom_tree(m).len() == m.blocks.len(),
        forall|v: NodeIx|
            v < m.blocks.len() ==> (#[trigger] spec_dom_tree(m)[v as int].is_seen() <==> reachable(
                m.edges,
                m.entry,
                v,
            )),
        spec_dom_tree(m)[m.entry as int].dfsnum == 0,
        spec_dom_tree(m)[m.entry as int].parent == NODEINFO_UNINIT,
        forall|v: NodeIx|
            v < m.blocks.len() && v != m.entry && #[trigger] spec_dom_tree(m)[v as int].is_seen() ==> {
                let p = spec_dom_tree(m)[v as int].parent;
                &&& p < m.blocks.len()
                &&& spec_dom_tree(m)[p as int].is_seen()
                &&& spec_dom_tree(m)[p as int].dfsnum < spec_dom_tree(m)[v as int].dfsnum
                &&& has_edge(m.edges, p, v)
            },
        exists|order: Seq<NodeIx>|
            #![trigger order.no_duplicates()]
            {
                &&& order.no_duplicates()
                &&& forall|k: int| 0 <= k < order.len() ==> #[trigger] order[k] < m.blocks.len()
                &&& forall|k: int|
                    0 <= k < order.len() ==> #[trigger] spec_dom_tree(m)[order[k] as int].dfsnum == k
                &&& forall|v: NodeIx|
                    v < m.blocks.len() ==> (#[trigger] spec_dom_tree(m)[v as int].is_seen()
                        <==> order.contains(v))
            },
        forall|v: NodeIx|
            v < m.blocks.len() ==> #[trigger] spec_dom_tree(m)[v as int].idom == NODEINFO_UNINIT
                && spec_dom_tree(m)[v as int].sdom == NODEINFO_UNINIT,
        forall|v: NodeIx|
            v < m.blocks.len() && !#[trigger] spec_dom_tree(m)[v as int].is_seen()
                ==> spec_dom_tree(m)[v as int] == NodeInfo::uninit(),
{
    let n = m.blocks.len();
    let edges = m.edges;
    let st0 = dfs_init(n);
    assert(edges_within(edges, n));
    assert forall|v: NodeIx| v < n implies (#[trigger] st0.info[v as int].is_seen() <==> st0.order.contains(
        v,
    )) by {
        assert(st0.info[v as int] == NodeInfo::uninit());
    }
    assert(dfs_wf(edges, st0));
    lemma_dfs_visit(edges, st0, m.entry, NODEINFO_UNINIT);
    let st = dfs_visit(edges, st0, m.entry, NODEINFO_UNINIT);
    let info = st.info;
    assert(info == spec_dom_tree(m));
    assert forall|v: NodeIx| v < n && #[trigger] info[v as int].is_seen() implies closed(edges, st, v) by {
        assert(st.order.contains(v));
        let k = choose|k: int| 0 <= k < st.order.len() && st.order[k] == v;
        assert(closed(edges, st, st.order[k]));
    }
    assert forall|v: NodeIx| v < n implies (#[trigger] info[v as int].is_seen() <==> reachable(
        edges,
        m.entry,
        v,
    )) by {
        if info[v as int].is_seen() {
            assert(st.order.contains(v));
            let k = choose|k: int| 0 <= k < st.order.len() && st.order[k] == v;
            lemma_reached_path(edges, st, k);
        }
        if reachable(edges, m.entry, v) {
            let p = choose|p: Seq<NodeIx>| is_path(edges, p) && p[0] == m.entry && p.last() == v;
            lemma_path_reached(edges, st, p, p.len() - 1);
        }
    }
    assert forall|v: NodeIx|
        v < n && v != m.entry && #[trigger] info[v as int].is_seen() implies {
            let p = info[v as int].parent;
            &&& p < n
            &&& info[p as int].is_seen()
            &&& info[p as int].dfsnum < info[v as int].dfsnum
            &&& has_edge(edges, p, v)
        } by {
        assert(st.order.contains(v));
        let k = choose|k: int| 0 <= k < st.order.len() && st.order[k] == v;
        assert(k != 0);
        assert(tree_edge(edges, st, st.order[k]));
        lemma_out_targets_has_edge(edges, info[v as int].parent, v);
    }
    assert(st.order.no_duplicates());
}

/// Every node of the graph lowered from a statement is reachable from its
/// entry.
pub proof fn lemma_from_stmt_reachable(s: crate::ast1::Stmt)
    requires
        CtxModel::from_stmt(s).fits(),
    ensures
        forall|v: NodeIx|
            v < CtxModel::from_stmt(s).blocks.len() ==> #[trigger] reachable(
                CtxModel::from_stmt(s).edges,
                CtxModel::from_stmt(s).entry,
                v,
            ),
{
    let e = CtxModel::empty();
    crate::reach::lemma_reach_standalone(e, s);
}

/// The search on the graph lowered from a statement reaches every node and
/// numbers the `n` nodes with `n` distinct numbers below `n`, that is with
/// exactly `0, 1, ..., n - 1`.
pub proof fn lemma_dom_tree_from_stmt(s: crate::ast1::Stmt)
    requires
        CtxModel::from_stmt(s).fits(),
    ensures
        forall|v: NodeIx|
            v < CtxModel::from_stmt(s).blocks.len() ==> #[trigger] spec_dom_tree(
                CtxModel::from_stmt(s),
            )[v as int].is_seen() && spec_dom_tree(CtxModel::from_stmt(s))[v as int].dfsnum
                < CtxModel::from_stmt(s).blocks.len(),
        forall|u: NodeIx, v: NodeIx|
            u < CtxModel::from_stmt(s).blocks.len() && v < CtxModel::from_stmt(s).blocks.len() && u
                != v ==> #[trigger] spec_dom_tree(CtxModel::from_stmt(s))[u as int].dfsnum
                != #[trigger] spec_dom_tree(CtxModel::from_stmt(s))[v as int].dfsnum,
{
    let m = CtxModel::from_stmt(s);
    let n = m.blocks.len();
    crate::lemmas::lemma_from_stmt_entry(s);
    lemma_from_stmt_reachable(s);
    lemma_dom_tree(m);
    let info = spec_dom_tree(m);
    let order = choose|order: Seq<NodeIx>|
        {
            &&& order.no_duplicates()
            &&& forall|k: int| 0 <= k < order.len() ==> #[trigger] order[k] < m.blocks.len()
            &&& forall|k: int| 0 <= k < order.len() ==> #[trigger] info[order[k] as int].dfsnum == k
            &&& forall|v: NodeIx| v < m.blocks.len() ==> (#[trigger] info[v as int].is_seen() <==> order.contains(v))
        };
    lemma_pigeonhole(order, n);
    assert forall|v: NodeIx| v < n implies #[trigger] info[v as int].is_seen() && info[v as int].dfsnum < n by {
        assert(reachable(m.edges, m.entry, v));
        assert(info[v as int].is_seen());
        let k = choose|k: int| 0 <= k < order.len() && order[k] == v;
        assert(info[order[k] as int].dfsnum == k);
    }
    assert forall|u: NodeIx, v: NodeIx| u < n && v < n && u != v implies #[trigger] info[u as int].dfsnum
        != #[trigger] info[v as int].dfsnum by {
        assert(reachable(m.edges, m.entry, u));
        assert(reachable(m.edges, m.entry, v));
        assert(info[u as int].is_seen() && info[v as int].is_seen());
        let a = choose|a: int| 0 <= a < order.len() && order[a] == u;
        let b = choose|b: int| 0 <= b < order.len() && order[b] == v;
        assert(info[order[a] as int].dfsnum == a);
        assert(info[order[b] as int].dfsnum == b);
    }
}

/// The search takes the most recently added edge out of a node first: the
/// target of the last edge added out of the entry, if not the entry itself,
/// is the second node reached, with the entry as its parent.
pub proof fn lemma_dom_tree_latest_edge_first(m: CtxModel)
    requires
        m.wf(),
        m.fits(),
        m.entry < m.blocks.len(),
        out_targets(m.edges, m.entry).len() > 0,
        out_targets(m.edges, m.entry)[0] != m.entry,
    ensures
        spec_dom_tree(m)[out_targets(m.edges, m.entry)[0] as int].dfsnum == 1,
        spec_dom_tree(m)[out_targets(m.edges, m.entry)[0] as int].parent == m.entry,
{
    let n = m.blocks.len();
    let edges = m.edges;
    let e = m.entry;
    let st0 = dfs_init(n);
    assert(edges_within(edges, n));
    assert forall|v: NodeIx| v < n implies (#[trigger] st0.info[v as int].is_seen() <==> st0.order.contains(
        v,
    )) by {
        assert(st0.info[v as int] == NodeInfo::uninit());
    }
    assert(dfs_wf(edges, st0));
    lemma_dfs_mark(edges, st0, e, NODEINFO_UNINIT);
    let st1 = dfs_mark(st0, e, NODEINFO_UNINIT);
    let succs = out_targets(edges, e);
    let t = succs[0];
    lemma_out_targets_within(edges, n, e);
    assert(t < n);
    assert(st1.info[t as int] == NodeInfo::uninit());
    assert(st1.order.len() == 1);
    assert(st1.order.len() < st1.info.len()) by {
        assert(!st1.order.contains(t)) by {
            if st1.order.contains(t) {
                let j = choose|j: int| 0 <= j < st1.order.len() && st1.order[j] == t;
                assert(st1.order[0] == e);
            }
        }
        lemma_dfs_wf_counts(edges, st1);
    }
    assert(succs.contains(t));
    lemma_dfs_visit(edges, st1, t, e);
    let st2 = dfs_visit(edges, st1, t, e);
    lemma_dfs_wf_counts(edges, st2);
    assert(st2.order[0] == e);
    assert forall|j: int| 0 <= j < 1 implies #[trigger] st2.info[succs[j] as int].is_seen() by {}
    assert forall|k: int| 0 < k < st2.order.len() implies closed(edges, st2, #[trigger] st2.order[k]) by {
        assert(st1.order.len() <= k);
    }
    lemma_dfs_succs(edges, st2, e, succs, 1, 0);
    let r = dfs_succs(edges, st2, e, succs, 1);
    assert(dfs_succs(edges, st1, e, succs, 0) == r);
    assert(dfs_visit(edges, st0, e, NODEINFO_UNINIT) == dfs_succs(edges, st1, e, succs, 0));
    assert(st2.info[t as int].is_seen());
    assert(r.info[t as int] == st2.info[t as int]);
}

} // verus!
