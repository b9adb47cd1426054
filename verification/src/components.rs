use crate::graph::{
    has_edge, hop, is_path, is_transpose, lemma_edge_at, lemma_path_prepend, lemma_reach_self,
    lemma_reach_trans, lemma_reach_transpose, lemma_transpose_back, path_between, reach,
    strongly_connected, well_formed, Graph,
};
use crate::postorder::{
    confined, finish_order, is_post_order, lemma_finish_order, lemma_rank_of_entry,
    lemma_rank_range, on_stack, rank,
};
use crate::traversal::{
    claim, frames_fit, lemma_unvisited_mark, pending, sweep, sweep_step, unvisited, Frame, Sweep,
};
use vstd::prelude::*;

verus! {

/// The labels after the first `k` entries of `order` have been taken as entry
/// points, last one first: each one that is still unmarked starts a labelling
/// traversal of `swept` under the next id.
pub open spec fn label_from(
    swept: Graph,
    order: Seq<usize>,
    k: nat,
    visited: Seq<bool>,
    label: Seq<usize>,
    id: usize,
) -> Seq<usize>
    decreases k,
{
    if k == 0 {
        label
    } else {
        let root = order[k - 1];
        if root < visited.len() && visited[root as int] {
            label_from(swept, order, (k - 1) as nat, visited, label, id)
        } else {
            let s = sweep(swept, claim(root, visited, label, id), id);
            label_from(swept, order, (k - 1) as nat, s.visited, s.label, (id + 1) as usize)
        }
    }
}

/// The component id of every node of `g`, where `gt` holds the edges of `g`
/// turned around: the finish order of `gt` is walked backwards, and every node
/// that a labelling traversal of `g` enters gets the id of that traversal.
pub open spec fn component_ids(g: Graph, gt: Graph) -> Seq<usize> {
    label_from(
        g,
        finish_order(gt),
        finish_order(gt).len(),
        Seq::new(g.len(), |x: int| false),
        Seq::new(g.len(), |x: int| 0usize),
        0,
    )
}

/// A path leads from `x` to the entry at position `k` through nodes that stand
/// no later than `k`.
pub open spec fn tethered(walked: Graph, order: Seq<usize>, k: int, x: int) -> bool {
    exists|p: Seq<int>| #[trigger] path_between(walked, p, x, order[k] as int) && confined(order, p, k)
}

/// Some marked node has the id `c`.
pub open spec fn in_use(visited: Seq<bool>, label: Seq<usize>, c: int) -> bool {
    exists|x: int| 0 <= x < visited.len() && visited[x] && #[trigger] label[x] == c
}

/// What holds of the marks and labels at every moment: a node that has left
/// the stack has only marked neighbours, none with a larger id, and nodes
/// with one id reach each other in `walked`.
pub open spec fn settled(walked: Graph, swept: Graph, stack: Seq<Frame>, visited: Seq<bool>, label: Seq<usize>) -> bool {
    &&& visited.len() == walked.len()
    &&& label.len() == walked.len()
    &&& forall|x: int, i: int|
        0 <= x < walked.len() && visited[x] && !on_stack(stack, x) && 0 <= i < swept[x].len() ==> visited[(
        #[trigger] swept[x][i]) as int] && label[swept[x][i] as int] <= label[x]
    &&& forall|x: int, y: int|
        0 <= x < walked.len() && 0 <= y < walked.len() && visited[x] && visited[y] && #[trigger] label[x]
            == #[trigger] label[y] ==> reach(walked, x, y)
}

/// The invariant of one labelling traversal, started at the entry at position `k`.
pub open spec fn sweep_inv(walked: Graph, swept: Graph, order: Seq<usize>, k: int, id: usize, s: Sweep) -> bool {
    &&& settled(walked, swept, s.stack, s.visited, s.label)
    &&& frames_fit(swept, s.stack)
    &&& 0 <= k < order.len()
    &&& rank(order, order[k] as int) == k
    &&& s.visited[order[k] as int]
    &&& s.label[order[k] as int] == id
    &&& forall|j: int|
        0 <= j < s.stack.len() ==> {
            let x = (#[trigger] s.stack[j]).node as int;
            s.visited[x] && s.label[x] == id && tethered(walked, order, k, x)
        }
    &&& forall|x: int| 0 <= x < walked.len() && #[trigger] s.visited[x] ==> s.label[x] <= id
    &&& forall|c: int| 0 <= c <= id ==> #[trigger] in_use(s.visited, s.label, c)
    &&& forall|j: int, i: int|
        0 <= j < s.stack.len() && 0 <= i < s.stack[j].next ==> s.visited[(
        #[trigger] swept[s.stack[j].node as int][i]) as int]
    &&& forall|q: int| k < q < order.len() ==> s.visited[(#[trigger] order[q]) as int]
}

/// The invariant between two labelling traversals: `k` entries are still to
/// be taken, and every id in use is below `id`.
pub open spec fn rest_inv(
    walked: Graph,
    swept: Graph,
    order: Seq<usize>,
    k: int,
    id: usize,
    visited: Seq<bool>,
    label: Seq<usize>,
) -> bool {
    &&& settled(walked, swept, Seq::empty(), visited, label)
    &&& 0 <= k <= order.len()
    &&& id + k <= order.len()
    &&& forall|x: int| 0 <= x < walked.len() && #[trigger] visited[x] ==> label[x] < id
    &&& forall|c: int| 0 <= c < id ==> #[trigger] in_use(visited, label, c)
    &&& forall|q: int| k <= q < order.len() ==> visited[(#[trigger] order[q]) as int]
}

/// What the two graphs and the order are assumed to be throughout: `walked` is
/// the graph of the finish-order traversal, `swept` holds its edges turned
/// around and is the graph of the labelling traversals, and `order` is a
/// post-order of `walked`.
pub open spec fn setting(walked: Graph, swept: Graph, order: Seq<usize>) -> bool {
    &&& well_formed(walked)
    &&& well_formed(swept)
    &&& is_transpose(walked, swept)
    &&& is_post_order(walked, order)
}

/// A frame that leaves the stack keeps the invariant: all its neighbours are marked.
proof fn lemma_sweep_leave(walked: Graph, swept: Graph, order: Seq<usize>, k: int, id: usize, s: Sweep)
    requires
        setting(walked, swept, order),
        sweep_inv(walked, swept, order, k, id, s),
        s.stack.len() > 0,
        s.stack.last().next >= swept[s.stack.last().node as int].len(),
    ensures
        sweep_inv(walked, swept, order, k, id, sweep_step(swept, s, id)),
{
    let top = s.stack.last();
    let last = s.stack.len() - 1;
    let s2 = sweep_step(swept, s, id);
    assert(s.stack[last] == top);
    assert(forall|j: int| 0 <= j < s2.stack.len() ==> s2.stack[j] == s.stack[j]);
    assert forall|x: int, i: int|
        0 <= x < walked.len() && s2.visited[x] && !on_stack(s2.stack, x) && 0 <= i < swept[x].len() implies s2.visited[(
    #[trigger] swept[x][i]) as int] && s2.label[swept[x][i] as int] <= s2.label[x] by {
        if x == top.node {
            assert(s.visited[swept[s.stack[last].node as int][i] as int]);
        } else {
            if on_stack(s.stack, x) {
                let j = choose|j: int| 0 <= j < s.stack.len() && (#[trigger] s.stack[j]).node == x;
                assert(s2.stack[j].node == x);
            }
        }
    }
    assert forall|j: int, i: int|
        0 <= j < s2.stack.len() && 0 <= i < s2.stack[j].next implies s2.visited[(
    #[trigger] swept[s2.stack[j].node as int][i]) as int] by {
        assert(s.visited[swept[s.stack[j].node as int][i] as int]);
    }
}

/// To pass a marked neighbour keeps the invariant.
proof fn lemma_sweep_pass(walked: Graph, swept: Graph, order: Seq<usize>, k: int, id: usize, s: Sweep)
    requires
        setting(walked, swept, order),
        sweep_inv(walked, swept, order, k, id, s),
        s.stack.len() > 0,
        s.stack.last().next < swept[s.stack.last().node as int].len(),
        s.visited[swept[s.stack.last().node as int][s.stack.last().next as int] as int],
    ensures
        sweep_inv(walked, swept, order, k, id, sweep_step(swept, s, id)),
{
    let top = s.stack.last();
    let last = s.stack.len() - 1;
    let s2 = sweep_step(swept, s, id);
    assert(s.stack[last] == top);
    assert(forall|j: int| 0 <= j < s2.stack.len() ==> (#[trigger] s2.stack[j]).node == s.stack[j].node);
    assert forall|x: int, i: int|
        0 <= x < walked.len() && s2.visited[x] && !on_stack(s2.stack, x) && 0 <= i < swept[x].len() implies s2.visited[(
    #[trigger] swept[x][i]) as int] && s2.label[swept[x][i] as int] <= s2.label[x] by {
        if on_stack(s.stack, x) {
            let j = choose|j: int| 0 <= j < s.stack.len() && (#[trigger] s.stack[j]).node == x;
            assert(s2.stack[j].node == x);
        }
    }
    assert forall|j: int, i: int|
        0 <= j < s2.stack.len() && 0 <= i < s2.stack[j].next implies s2.visited[(
    #[trigger] swept[s2.stack[j].node as int][i]) as int] by {
        if j == last && i == top.next {
        } else {
            assert(s.visited[swept[s.stack[j].node as int][i] as int]);
        }
    }
    assert forall|j: int| 0 <= j < s2.stack.len() implies {
        let x = (#[trigger] s2.stack[j]).node as int;
        s2.visited[x] && s2.label[x] == id && tethered(walked, order, k, x)
    } by {
        assert(s2.stack[j].node == s.stack[j].node);
    }
}

/// To enter an unmarked neighbour keeps the invariant: the new node hangs on
/// the root by a path through nodes that stand no later, so the root reaches it.
proof fn lemma_sweep_descend(walked: Graph, swept: Graph, order: Seq<usize>, k: int, id: usize, s: Sweep)
    requires
        setting(walked, swept, order),
        sweep_inv(walked, swept, order, k, id, s),
        s.stack.len() > 0,
        s.stack.last().next < swept[s.stack.last().node as int].len(),
        !s.visited[swept[s.stack.last().node as int][s.stack.last().next as int] as int],
    ensures
        sweep_inv(walked, swept, order, k, id, sweep_step(swept, s, id)),
{
    let top = s.stack.last();
    let last = s.stack.len() - 1;
    let s2 = sweep_step(swept, s, id);
    let n = swept[top.node as int][top.next as int] as int;
    let r = order[k] as int;
    assert(s.stack[last] == top);
    assert(0 <= n < walked.len());
    assert(s2.stack.len() == s.stack.len() + 1);
    assert(s2.stack[last + 1].node == n);
    assert(forall|j: int| 0 <= j <= last ==> (#[trigger] s2.stack[j]).node == s.stack[j].node);
    // the new node hangs on the root of this traversal
    lemma_edge_at(swept, top.node as int, top.next as int);
    assert(has_edge(walked, n, top.node as int));
    assert(tethered(walked, order, k, top.node as int));
    let pt = choose|p: Seq<int>| #[trigger]
        path_between(walked, p, top.node as int, order[k] as int) && confined(order, p, k);
    let pn = seq![n] + pt;
    lemma_path_prepend(walked, n, pt);
    lemma_rank_range(order, n);
    assert(rank(order, n) <= k) by {
        if rank(order, n) > k {
            assert(s.visited[order[rank(order, n)] as int]);
        }
    }
    assert forall|i: int| 0 <= i < pn.len() implies rank(order, #[trigger] pn[i]) <= k by {
        if i > 0 {
            assert(pn[i] == pt[i - 1]);
        }
    }
    assert(path_between(walked, pn, n, r) && confined(order, pn, k));
    assert(tethered(walked, order, k, n));
    assert(reach(walked, n, r));
    assert(is_path(walked, pn) && confined(order, pn, rank(order, pn[pn.len() - 1])));
    assert(reach(walked, r, n));
    lemma_reach_self(walked, n);
    assert forall|x: int, y: int|
        0 <= x < walked.len() && 0 <= y < walked.len() && s2.visited[x] && s2.visited[y] && #[trigger] s2.label[x]
            == #[trigger] s2.label[y] implies reach(walked, x, y) by {
        if x == n && y == n {
        } else if x == n {
            assert(s.label[y] == s.label[r]);
            lemma_reach_trans(walked, n, r, y);
        } else if y == n {
            assert(s.label[x] == s.label[r]);
            lemma_reach_trans(walked, x, r, n);
        } else {
            assert(s.label[x] == s.label[y]);
        }
    }
    assert forall|x: int, i: int|
        0 <= x < walked.len() && s2.visited[x] && !on_stack(s2.stack, x) && 0 <= i < swept[x].len() implies s2.visited[(
    #[trigger] swept[x][i]) as int] && s2.label[swept[x][i] as int] <= s2.label[x] by {
        assert(x != n);
        if on_stack(s.stack, x) {
            let j = choose|j: int| 0 <= j < s.stack.len() && (#[trigger] s.stack[j]).node == x;
            assert(s2.stack[j].node == x);
        }
        assert(s.visited[swept[x][i] as int]);
    }
    assert(settled(walked, swept, s2.stack, s2.visited, s2.label));
    assert forall|j: int, i: int|
        0 <= j < s2.stack.len() && 0 <= i < s2.stack[j].next implies s2.visited[(
    #[trigger] swept[s2.stack[j].node as int][i]) as int] by {
        if j == last && i == top.next {
        } else {
            assert(s.visited[swept[s.stack[j].node as int][i] as int]);
        }
    }
    assert forall|j: int| 0 <= j < s2.stack.len() implies {
        let x = (#[trigger] s2.stack[j]).node as int;
        s2.visited[x] && s2.label[x] == id && tethered(walked, order, k, x)
    } by {
        if j <= last {
            assert(s2.stack[j].node == s.stack[j].node);
            assert(s.visited[s.stack[j].node as int]);
        }
    }
    assert forall|q: int| k < q < order.len() implies s2.visited[(#[trigger] order[q]) as int] by {
        assert(s.visited[order[q] as int]);
    }
    assert forall|c: int| 0 <= c <= id implies #[trigger] in_use(s2.visited, s2.label, c) by {
        assert(in_use(s.visited, s.label, c));
        let x = choose|x: int| 0 <= x < s.visited.len() && s.visited[x] && #[trigger] s.label[x] == c;
        assert(s2.visited[x] && s2.label[x] == c);
    }
}

/// A labelling traversal that starts in a state that meets the invariant
/// comes to rest in one that meets it, with an empty stack.
proof fn lemma_sweep(walked: Graph, swept: Graph, order: Seq<usize>, k: int, id: usize, s: Sweep)
    requires
        setting(walked, swept, order),
        sweep_inv(walked, swept, order, k, id, s),
    ensures
        sweep_inv(walked, swept, order, k, id, sweep(swept, s, id)),
        sweep(swept, s, id).stack.len() == 0,
    decreases unvisited(s.visited), s.stack.len(), pending(swept, s.stack),
{
    if s.stack.len() > 0 {
        let top = s.stack.last();
        assert(s.stack[s.stack.len() - 1] == top);
        if top.next < swept[top.node as int].len() {
            let n = swept[top.node as int][top.next as int] as int;
            if !s.visited[n] {
                lemma_unvisited_mark(s.visited, n);
                lemma_sweep_descend(walked, swept, order, k, id, s);
            } else {
                lemma_sweep_pass(walked, swept, order, k, id, s);
            }
        } else {
            lemma_sweep_leave(walked, swept, order, k, id, s);
        }
        lemma_sweep(walked, swept, order, k, id, sweep_step(swept, s, id));
    }
}

/// The state in which a traversal enters an unmarked entry of the order meets
/// the invariant.
proof fn lemma_claim(
    walked: Graph,
    swept: Graph,
    order: Seq<usize>,
    k: int,
    id: usize,
    visited: Seq<bool>,
    label: Seq<usize>,
)
    requires
        setting(walked, swept, order),
        rest_inv(walked, swept, order, k + 1, id, visited, label),
        0 <= k,
        !visited[order[k] as int],
    ensures
        sweep_inv(walked, swept, order, k, id, claim(order[k], visited, label, id)),
{
    let r = order[k] as int;
    let s2 = claim(order[k], visited, label, id);
    lemma_rank_of_entry(order, k);
    lemma_rank_range(order, r);
    assert(rank(order, r) == k) by {
        if rank(order, r) > k {
            assert(visited[order[rank(order, r)] as int]);
        }
    }
    lemma_reach_self(walked, r);
    let p = seq![r];
    assert(path_between(walked, p, r, r) && confined(order, p, k));
    assert(tethered(walked, order, k, r));
    assert(s2.stack[0].node == r);
    assert forall|x: int, i: int|
        0 <= x < walked.len() && s2.visited[x] && !on_stack(s2.stack, x) && 0 <= i < swept[x].len() implies s2.visited[(
    #[trigger] swept[x][i]) as int] && s2.label[swept[x][i] as int] <= s2.label[x] by {
        assert(x != r);
        assert(!on_stack(Seq::<Frame>::empty(), x));
        assert(visited[swept[x][i] as int]);
    }
    assert forall|x: int, y: int|
        0 <= x < walked.len() && 0 <= y < walked.len() && s2.visited[x] && s2.visited[y] && #[trigger] s2.label[x]
            == #[trigger] s2.label[y] implies reach(walked, x, y) by {
        if x == r || y == r {
            if x != r {
                assert(visited[x]);
            }
            if y != r {
                assert(visited[y]);
            }
        } else {
            assert(label[x] == label[y]);
        }
    }
    assert(settled(walked, swept, s2.stack, s2.visited, s2.label));
    assert forall|x: int| 0 <= x < walked.len() && #[trigger] s2.visited[x] implies s2.label[x] <= id by {
        if x != r {
            assert(visited[x]);
        }
    }
    assert forall|q: int| k < q < order.len() implies s2.visited[(#[trigger] order[q]) as int] by {
        assert(visited[order[q] as int]);
    }
    assert forall|c: int| 0 <= c <= id implies #[trigger] in_use(s2.visited, s2.label, c) by {
        if c < id {
            assert(in_use(visited, label, c));
            let x = choose|x: int| 0 <= x < visited.len() && visited[x] && #[trigger] label[x] == c;
            assert(s2.visited[x] && s2.label[x] == c);
        } else {
            assert(s2.visited[r] && s2.label[r] == c);
        }
    }
}

/// The walk backwards through the order keeps the invariant between traversals.
proof fn lemma_label_from(
    walked: Graph,
    swept: Graph,
    order: Seq<usize>,
    k: nat,
    id: usize,
    visited: Seq<bool>,
    label: Seq<usize>,
) -> (end: (Seq<bool>, usize))
    requires
        setting(walked, swept, order),
        rest_inv(walked, swept, order, k as int, id, visited, label),
    ensures
        rest_inv(walked, swept, order, 0, end.1, end.0, label_from(swept, order, k, visited, label, id)),
    decreases k,
{
    if k == 0 {
        (visited, id)
    } else {
        let root = order[k - 1];
        if visited[root as int] {
            assert forall|q: int| k - 1 <= q < order.len() implies visited[(
            #[trigger] order[q]) as int] by {}
            lemma_label_from(walked, swept, order, (k - 1) as nat, id, visited, label)
        } else {
            lemma_claim(walked, swept, order, k - 1, id, visited, label);
            let s1 = claim(root, visited, label, id);
            lemma_sweep(walked, swept, order, k - 1, id, s1);
            let s2 = sweep(swept, s1, id);
            assert(s2.stack =~= Seq::empty());
            assert forall|x: int| 0 <= x < walked.len() && #[trigger] s2.visited[x] implies s2.label[x]
                < (id + 1) as usize by {}
            lemma_label_from(walked, swept, order, (k - 1) as nat, (id + 1) as usize, s2.visited, s2.label)
        }
    }
}

/// Along a path no id decreases.
proof fn lemma_ids_along_path(walked: Graph, ids: Seq<usize>, p: Seq<int>, i: int)
    requires
        ids.len() == walked.len(),
        forall|u: int, v: int| has_edge(walked, u, v) && 0 <= v < walked.len() ==> ids[u] <= ids[v],
        is_path(walked, p),
        0 <= i < p.len(),
    ensures
        ids[p[0]] <= ids[p[i]],
    decreases i,
{
    if i > 0 {
        lemma_ids_along_path(walked, ids, p, i - 1);
        assert(hop(walked, p, i - 1));
    }
}

/// Some node has the id `c`.
pub open spec fn carried(ids: Seq<usize>, c: int) -> bool {
    exists|v: int| 0 <= v < ids.len() && #[trigger] ids[v] == c
}

/// What the labelling leaves behind, said of the graph that was walked for
/// the finish order: the ids run from 0 on without a gap, every edge of
/// `walked` leads to an id that is no smaller, and two nodes have one id
/// exactly if they are strongly connected.
spec fn labelled_along(walked: Graph, ids: Seq<usize>) -> bool {
    &&& ids.len() == walked.len()
    &&& forall|u: int| 0 <= u < walked.len() ==> #[trigger] ids[u] < walked.len()
    &&& forall|u: int, c: int|
        0 <= u < walked.len() && 0 <= c <= #[trigger] ids[u] ==> #[trigger] carried(ids, c)
    &&& forall|u: int, v: int|
        #[trigger] has_edge(walked, u, v) && 0 <= v < walked.len() ==> ids[u] <= ids[v]
    &&& forall|u: int, v: int|
        0 <= u < walked.len() && 0 <= v < walked.len() ==> (ids[u] == ids[v]
            <==> #[trigger] strongly_connected(walked, u, v))
}

/// The labelling traversals of `swept`, started in the finish order of
/// `walked` read backwards, label the strongly connected components.
proof fn lemma_labelled(walked: Graph, swept: Graph)
    requires
        well_formed(walked),
        well_formed(swept),
        is_transpose(walked, swept),
    ensures
        labelled_along(walked, component_ids(swept, walked)),
{
    let order = finish_order(walked);
    lemma_finish_order(walked);
    let fresh = Seq::new(walked.len(), |x: int| false);
    let zeros = Seq::new(walked.len(), |x: int| 0usize);
    assert(rest_inv(walked, swept, order, order.len() as int, 0, fresh, zeros));
    let end = lemma_label_from(walked, swept, order, order.len(), 0, fresh, zeros);
    let ids = component_ids(swept, walked);
    let visited = end.0;
    assert forall|x: int| 0 <= x < walked.len() implies #[trigger] visited[x] by {
        lemma_rank_range(order, x);
        assert(visited[order[rank(order, x)] as int]);
    }
    assert forall|u: int, v: int| #[trigger]
        has_edge(walked, u, v) && 0 <= v < walked.len() implies ids[u] <= ids[v] by {
        assert(has_edge(swept, v, u));
        let i = choose|i: int| 0 <= i < swept[v].len() && (#[trigger] swept[v][i]) == u;
        assert(!on_stack(Seq::<Frame>::empty(), v));
        assert(visited[v]);
    }
    assert forall|u: int, v: int| 0 <= u < walked.len() && 0 <= v < walked.len() implies (ids[u]
        == ids[v] <==> #[trigger] strongly_connected(walked, u, v)) by {
        assert(visited[u] && visited[v]);
        if strongly_connected(walked, u, v) {
            let p = choose|p: Seq<int>| path_between(walked, p, u, v);
            let q = choose|q: Seq<int>| path_between(walked, q, v, u);
            lemma_ids_along_path(walked, ids, p, p.len() - 1);
            lemma_ids_along_path(walked, ids, q, q.len() - 1);
        }
        if ids[u] == ids[v] {
            assert(reach(walked, u, v));
            assert(ids[v] == ids[u]);
            assert(reach(walked, v, u));
        }
    }
    assert forall|u: int| 0 <= u < walked.len() implies #[trigger] ids[u] < walked.len() by {
        assert(visited[u]);
    }
    assert forall|u: int, c: int|
        0 <= u < walked.len() && 0 <= c <= #[trigger] ids[u] implies #[trigger] carried(ids, c) by {
        assert(visited[u]);
        assert(in_use(visited, ids, c));
        let x = choose|x: int| 0 <= x < visited.len() && visited[x] && #[trigger] ids[x] == c;
        assert(ids[x] == c);
    }
}

/// The ids number the strongly connected components of `g`, from 0 on
/// without a gap, in a reverse topological order: no edge leads from a
/// smaller id to a larger one.
pub open spec fn numbers_components(g: Graph, ids: Seq<usize>) -> bool {
    &&& ids.len() == g.len()
    &&& forall|u: int| 0 <= u < g.len() ==> #[trigger] ids[u] < g.len()
    &&& forall|u: int, c: int|
        0 <= u < g.len() && 0 <= c <= #[trigger] ids[u] ==> #[trigger] carried(ids, c)
    &&& forall|u: int, v: int| #[trigger] has_edge(g, u, v) && 0 <= v < g.len() ==> ids[u] >= ids[v]
    &&& forall|u: int, v: int|
        0 <= u < g.len() && 0 <= v < g.len() ==> (ids[u] == ids[v] <==> #[trigger] strongly_connected(
            g,
            u,
            v,
        ))
}

/// The two traversals together number the strongly connected components of
/// `g` in a reverse topological order.
pub proof fn lemma_component_ids(g: Graph, gt: Graph)
    requires
        well_formed(g),
        well_formed(gt),
        is_transpose(g, gt),
    ensures
        numbers_components(g, component_ids(g, gt)),
{
    let ids = component_ids(g, gt);
    lemma_transpose_back(g, gt);
    lemma_labelled(gt, g);
    assert forall|u: int, v: int| #[trigger] has_edge(g, u, v) && 0 <= v < g.len() implies ids[u]
        >= ids[v] by {
        assert(has_edge(gt, v, u));
    }
    assert forall|u: int, v: int| 0 <= u < g.len() && 0 <= v < g.len() implies (ids[u] == ids[v]
        <==> #[trigger] strongly_connected(g, u, v)) by {
        if strongly_connected(g, u, v) {
            lemma_reach_transpose(g, gt, u, v);
            lemma_reach_transpose(g, gt, v, u);
        }
        if strongly_connected(gt, u, v) {
            lemma_reach_transpose(gt, g, u, v);
            lemma_reach_transpose(gt, g, v, u);
        }
    }
}

} // verus!
