use vstd::prelude::*;

verus! {

/// A directed graph on the nodes `0 .. len`, as one list of successors per node.
pub type Graph = Seq<Seq<usize>>;

/// The graph that a vector of adjacency lists stands for.
pub open spec fn adjacency(lists: Vec<Vec<usize>>) -> Graph {
    Seq::new(lists@.len(), |u: int| lists@[u]@)
}

/// Every successor is a node of the graph, and every length fits in a machine word.
pub open spec fn well_formed(g: Graph) -> bool {
    &&& g.len() <= usize::MAX
    &&& forall|u: int| 0 <= u < g.len() ==> (#[trigger] g[u]).len() <= usize::MAX
    &&& forall|u: int, i: int|
        0 <= u < g.len() && 0 <= i < g[u].len() ==> (#[trigger] g[u][i]) < g.len()
}

/// `v` occurs among the successors of `u`.
pub open spec fn has_edge(g: Graph, u: int, v: int) -> bool {
    0 <= u < g.len() && exists|i: int| 0 <= i < g[u].len() && (#[trigger] g[u][i]) == v
}

/// The `i`-th hop of `p` follows an edge.
pub open spec fn hop(g: Graph, p: Seq<int>, i: int) -> bool {
    has_edge(g, p[i], p[i + 1])
}

/// `p` is a non-empty walk through nodes of `g` along its edges.
pub open spec fn is_path(g: Graph, p: Seq<int>) -> bool {
    &&& p.len() > 0
    &&& forall|i: int| 0 <= i < p.len() ==> 0 <= #[trigger] p[i] < g.len()
    &&& forall|i: int| 0 <= i < p.len() - 1 ==> #[trigger] hop(g, p, i)
}

/// `p` is a path of `g` that starts at `u` and ends at `v`.
pub open spec fn path_between(g: Graph, p: Seq<int>, u: int, v: int) -> bool {
    is_path(g, p) && p[0] == u && p[p.len() - 1] == v
}

/// `v` can be reached from `u` along zero or more edges.
pub open spec fn reach(g: Graph, u: int, v: int) -> bool {
    exists|p: Seq<int>| #[trigger] path_between(g, p, u, v)
}

/// `u` and `v` lie on a common cycle, or are equal.
pub open spec fn strongly_connected(g: Graph, u: int, v: int) -> bool {
    reach(g, u, v) && reach(g, v, u)
}

/// `gt` holds exactly the edges of `g`, each turned around.
pub open spec fn is_transpose(g: Graph, gt: Graph) -> bool {
    &&& g.len() == gt.len()
    &&& forall|u: int, v: int| has_edge(g, u, v) <==> has_edge(gt, v, u)
}

/// Every entry of a successor list is an edge.
pub proof fn lemma_edge_at(g: Graph, u: int, i: int)
    requires
        0 <= u < g.len(),
        0 <= i < g[u].len(),
    ensures
        has_edge(g, u, g[u][i] as int),
{
}

/// Every node reaches itself.
pub proof fn lemma_reach_self(g: Graph, u: int)
    requires
        0 <= u < g.len(),
    ensures
        reach(g, u, u),
{
    let p = seq![u];
    assert(path_between(g, p, u, u));
}

/// A path can be continued along an edge that leaves its last node.
pub proof fn lemma_path_extend(g: Graph, p: Seq<int>, w: int)
    requires
        is_path(g, p),
        has_edge(g, p[p.len() - 1], w),
        0 <= w < g.len(),
    ensures
        is_path(g, p.push(w)),
        p.push(w)[0] == p[0],
{
    let q = p.push(w);
    assert forall|i: int| 0 <= i < q.len() - 1 implies #[trigger] hop(g, q, i) by {
        if i < p.len() - 1 {
            assert(hop(g, p, i));
        }
    }
}

/// A path can be entered along an edge that leads to its first node.
pub proof fn lemma_path_prepend(g: Graph, w: int, p: Seq<int>)
    requires
        is_path(g, p),
        has_edge(g, w, p[0]),
    ensures
        is_path(g, seq![w] + p),
{
    let q = seq![w] + p;
    assert forall|i: int| 0 <= i < q.len() - 1 implies #[trigger] hop(g, q, i) by {
        if i > 0 {
            assert(hop(g, p, i - 1));
        }
    }
}

/// Two paths that meet can be walked one after the other.
pub proof fn lemma_path_join(g: Graph, p: Seq<int>, q: Seq<int>)
    requires
        is_path(g, p),
        is_path(g, q),
        p[p.len() - 1] == q[0],
    ensures
        is_path(g, p + q.subrange(1, q.len() as int)),
        (p + q.subrange(1, q.len() as int))[0] == p[0],
        (p + q.subrange(1, q.len() as int)).last() == q.last(),
{
    let r = p + q.subrange(1, q.len() as int);
    assert forall|i: int| 0 <= i < r.len() - 1 implies #[trigger] hop(g, r, i) by {
        if i < p.len() - 1 {
            assert(hop(g, p, i));
        } else {
            assert(hop(g, q, i - p.len() + 1));
        }
    }
}

/// What reaches the source of an edge reaches its target.
pub proof fn lemma_reach_edge(g: Graph, u: int, v: int, w: int)
    requires
        reach(g, u, v),
        has_edge(g, v, w),
        0 <= w < g.len(),
    ensures
        reach(g, u, w),
{
    let p = choose|p: Seq<int>| path_between(g, p, u, v);
    lemma_path_extend(g, p, w);
    assert(path_between(g, p.push(w), u, w));
}

/// Reachability is transitive.
pub proof fn lemma_reach_trans(g: Graph, u: int, v: int, w: int)
    requires
        reach(g, u, v),
        reach(g, v, w),
    ensures
        reach(g, u, w),
{
    let p = choose|p: Seq<int>| path_between(g, p, u, v);
    let q = choose|q: Seq<int>| path_between(g, q, v, w);
    lemma_path_join(g, p, q);
    assert(path_between(g, p + q.subrange(1, q.len() as int), u, w));
}

/// If `gt` is `g` turned around, then `g` is `gt` turned around.
pub proof fn lemma_transpose_back(g: Graph, gt: Graph)
    requires
        is_transpose(g, gt),
    ensures
        is_transpose(gt, g),
{
    assert forall|u: int, v: int| has_edge(gt, u, v) <==> has_edge(g, v, u) by {
        assert(has_edge(g, v, u) <==> has_edge(gt, u, v));
    }
}

/// A path of `g`, walked backwards, is a path of `g` turned around.
pub proof fn lemma_reach_transpose(g: Graph, gt: Graph, u: int, v: int)
    requires
        is_transpose(g, gt),
        reach(g, u, v),
    ensures
        reach(gt, v, u),
{
    let p = choose|p: Seq<int>| path_between(g, p, u, v);
    let n = p.len() as int;
    let q = Seq::new(p.len(), |i: int| p[n - 1 - i]);
    assert forall|i: int| 0 <= i < q.len() - 1 implies #[trigger] hop(gt, q, i) by {
        assert(hop(g, p, n - 2 - i));
        assert(has_edge(g, p[n - 2 - i], p[n - 1 - i]));
    }
    assert forall|i: int| 0 <= i < q.len() implies 0 <= #[trigger] q[i] < gt.len() by {
        assert(0 <= p[n - 1 - i] < g.len());
    }
    assert(path_between(gt, q, v, u));
}

} // verus!
