use crate::graph::{
    hop, is_path, lemma_edge_at, lemma_reach_edge, lemma_reach_self, reach, well_formed, Graph,
};
use crate::traversal::{
    enter, explore, explore_step, frames_fit, lemma_unvisited_mark, pending, unvisited, Frame, Walk,
};
use vstd::prelude::*;

verus! {

/// The position at which `x` stands in `order`, or -1 if it does not occur.
/// (Where it occurs more than once, the last position.)
pub open spec fn rank(order: Seq<usize>, x: int) -> int
    decreases order.len(),
{
    if order.len() == 0 {
        -1
    } else if order.last() == x {
        order.len() - 1
    } else {
        rank(order.drop_last(), x)
    }
}

/// A rank is -1 or a position at which the node stands.
pub proof fn lemma_rank_range(order: Seq<usize>, x: int)
    ensures
        -1 <= rank(order, x) < order.len(),
        rank(order, x) >= 0 ==> order[rank(order, x)] == x,
    decreases order.len(),
{
    if order.len() > 0 && order.last() != x {
        lemma_rank_range(order.drop_last(), x);
    }
}

/// An entry has a rank, which is no earlier than the position asked about.
pub proof fn lemma_rank_of_entry(order: Seq<usize>, q: int)
    requires
        0 <= q < order.len(),
    ensures
        q <= rank(order, order[q] as int) < order.len(),
    decreases order.len(),
{
    if order.last() != order[q] {
        lemma_rank_of_entry(order.drop_last(), q);
    }
}

/// An appended node gets the new last position; every other rank stays.
pub proof fn lemma_rank_push(order: Seq<usize>, y: usize)
    ensures
        forall|x: int| #[trigger]
            rank(order.push(y), x) == if y == x {
                order.len() as int
            } else {
                rank(order, x)
            },
{
    assert(order.push(y).drop_last() =~= order);
}

/// Some frame of the stack belongs to `x`.
pub open spec fn on_stack(stack: Seq<Frame>, x: int) -> bool {
    exists|j: int| 0 <= j < stack.len() && (#[trigger] stack[j]).node == x
}

/// Sizes agree, finished and entered nodes are marked, and every marked node
/// is on the stack or finished. `low[x]` is the length that the order had when
/// `x` was entered.
pub open spec fn shape(g: Graph, w: Walk, low: Seq<int>) -> bool {
    &&& w.visited.len() == g.len()
    &&& low.len() == g.len()
    &&& frames_fit(g, w.stack)
    &&& w.order.len() + w.stack.len() + unvisited(w.visited) == g.len()
    &&& forall|x: int| #![trigger rank(w.order, x)] rank(w.order, x) >= 0 ==> 0 <= x < g.len() && w.visited[x] && low[x] <= rank(w.order, x)
    &&& forall|j: int|
        0 <= j < w.stack.len() ==> w.visited[(#[trigger] w.stack[j]).node as int] && rank(
            w.order,
            w.stack[j].node as int,
        ) == -1
    &&& forall|x: int|
        0 <= x < g.len() && #[trigger] w.visited[x] ==> 0 <= low[x] <= w.order.len() && (rank(
            w.order,
            x,
        ) >= 0 || on_stack(w.stack, x))
    &&& forall|i: int, j: int|
        0 <= i < j < w.stack.len() ==> (#[trigger] w.stack[i]).node != (#[trigger] w.stack[j]).node
}

/// Every successor that a frame has passed is marked; every successor of a
/// finished node either finished before it or was entered before it finished.
pub open spec fn explored(g: Graph, w: Walk, low: Seq<int>) -> bool {
    &&& forall|j: int, i: int|
        0 <= j < w.stack.len() && 0 <= i < w.stack[j].next ==> w.visited[(
        #[trigger] g[w.stack[j].node as int][i]) as int]
    &&& forall|a: int, i: int|
        rank(w.order, a) >= 0 && 0 <= i < g[a].len() ==> {
            let s = (#[trigger] g[a][i]) as int;
            w.visited[s] && (0 <= rank(w.order, s) < rank(w.order, a) || low[s] <= rank(
                w.order,
                a,
            ))
        }
}

/// The nodes finished since a node was entered are reachable from it, and were
/// entered after it.
pub open spec fn nested(g: Graph, w: Walk, low: Seq<int>) -> bool {
    &&& forall|i: int, j: int|
        0 <= i <= j < w.stack.len() ==> low[(#[trigger] w.stack[i]).node as int] <= low[(
        #[trigger] w.stack[j]).node as int] && reach(
            g,
            w.stack[i].node as int,
            w.stack[j].node as int,
        )
    &&& forall|j: int, a: int|
        0 <= j < w.stack.len() && low[(#[trigger] w.stack[j]).node as int] <= #[trigger] rank(
            w.order,
            a,
        ) ==> low[w.stack[j].node as int] <= low[a] && reach(g, w.stack[j].node as int, a)
    &&& forall|b: int, a: int|
        0 <= b < g.len() && 0 <= a < g.len() && 0 <= low[b] <= #[trigger] rank(w.order, a)
            <= #[trigger] rank(w.order, b) ==> low[b] <= low[a] && reach(g, b, a)
}

/// The invariant of the finish-order traversal.
pub open spec fn walk_inv(g: Graph, w: Walk, low: Seq<int>) -> bool {
    shape(g, w, low) && explored(g, w, low) && nested(g, w, low)
}

/// Marks are only ever added.
pub open spec fn marks_kept(before: Seq<bool>, after: Seq<bool>) -> bool {
    before.len() == after.len() && forall|x: int|
        0 <= x < before.len() && #[trigger] before[x] ==> after[x]
}

/// A frame that leaves the stack keeps the invariant: its node is appended
/// after everything that finished since it was entered.
proof fn lemma_leave(g: Graph, w: Walk, low: Seq<int>)
    requires
        well_formed(g),
        walk_inv(g, w, low),
        w.stack.len() > 0,
        w.stack.last().next >= g[w.stack.last().node as int].len(),
    ensures
        walk_inv(g, explore_step(g, w), low),
{
    let top = w.stack.last();
    let x = top.node as int;
    let w2 = explore_step(g, w);
    let last = w.stack.len() - 1;
    lemma_rank_push(w.order, top.node);
    lemma_reach_self(g, x);
    assert(w2.stack == w.stack.drop_last());
    assert(w2.order == w.order.push(top.node));
    assert(forall|j: int| 0 <= j < w2.stack.len() ==> w2.stack[j] == w.stack[j]);
    assert(w.stack[last] == top);
    assert(rank(w.order, x) == -1);
    assert forall|y: int| 0 <= y < g.len() && #[trigger] w2.visited[y] implies rank(w2.order, y)
        >= 0 || on_stack(w2.stack, y) by {
        if rank(w.order, y) < 0 && y != x {
            let j = choose|j: int| 0 <= j < w.stack.len() && (#[trigger] w.stack[j]).node == y;
            assert(w2.stack[j].node == y);
        }
    }
    assert(shape(g, w2, low));
    assert forall|a: int, i: int| rank(w2.order, a) >= 0 && 0 <= i < g[a].len() implies {
        let s = (#[trigger] g[a][i]) as int;
        w2.visited[s] && (0 <= rank(w2.order, s) < rank(w2.order, a) || low[s] <= rank(
            w2.order,
            a,
        ))
    } by {
        if a == x {
            assert(w.visited[g[w.stack[last].node as int][i] as int]);
        }
    }
    assert(explored(g, w2, low));
    assert forall|j: int, a: int|
        0 <= j < w2.stack.len() && low[(#[trigger] w2.stack[j]).node as int] <= #[trigger] rank(
            w2.order,
            a,
        ) implies low[w2.stack[j].node as int] <= low[a] && reach(
        g,
        w2.stack[j].node as int,
        a,
    ) by {
        if a == x {
            assert(w.stack[j].node == w2.stack[j].node);
            assert(w.stack[last].node == x);
        } else {
            assert(w.stack[j].node == w2.stack[j].node);
            assert(rank(w.order, a) == rank(w2.order, a));
        }
    }
    assert forall|b: int, a: int|
        0 <= b < g.len() && 0 <= a < g.len() && 0 <= low[b] <= #[trigger] rank(w2.order, a)
            <= #[trigger] rank(w2.order, b) implies low[b] <= low[a] && reach(g, b, a) by {
        if b == x {
            if a != x {
                assert(w.stack[last].node == x);
                assert(rank(w.order, a) == rank(w2.order, a));
            }
        } else {
            lemma_rank_range(w.order, b);
            assert(rank(w.order, a) == rank(w2.order, a));
            assert(rank(w.order, b) == rank(w2.order, b));
        }
    }
    assert(nested(g, w2, low));
}

/// To pass a marked successor keeps the invariant.
proof fn lemma_pass(g: Graph, w: Walk, low: Seq<int>)
    requires
        well_formed(g),
        walk_inv(g, w, low),
        w.stack.len() > 0,
        w.stack.last().next < g[w.stack.last().node as int].len(),
        w.visited[g[w.stack.last().node as int][w.stack.last().next as int] as int],
    ensures
        walk_inv(g, explore_step(g, w), low),
{
    let top = w.stack.last();
    let w2 = explore_step(g, w);
    let last = w.stack.len() - 1;
    assert(w.stack[last] == top);
    assert(forall|j: int| 0 <= j < w2.stack.len() ==> (#[trigger] w2.stack[j]).node == w.stack[j].node);
    assert forall|y: int| 0 <= y < g.len() && #[trigger] w2.visited[y] implies rank(w2.order, y)
        >= 0 || on_stack(w2.stack, y) by {
        if rank(w.order, y) < 0 {
            let j = choose|j: int| 0 <= j < w.stack.len() && (#[trigger] w.stack[j]).node == y;
            assert(w2.stack[j].node == y);
        }
    }
    assert(shape(g, w2, low));
    assert forall|j: int, i: int| 0 <= j < w2.stack.len() && 0 <= i < w2.stack[j].next implies w2.visited[(
    #[trigger] g[w2.stack[j].node as int][i]) as int] by {
        if j == last && i == top.next {
        } else {
            assert(w.visited[g[w.stack[j].node as int][i] as int]);
        }
    }
    assert(explored(g, w2, low));
    assert forall|i: int, j: int| 0 <= i <= j < w2.stack.len() implies low[(
    #[trigger] w2.stack[i]).node as int] <= low[(#[trigger] w2.stack[j]).node as int] && reach(
        g,
        w2.stack[i].node as int,
        w2.stack[j].node as int,
    ) by {
        assert(w2.stack[i].node == w.stack[i].node);
        assert(w2.stack[j].node == w.stack[j].node);
    }
    assert forall|j: int, a: int|
        0 <= j < w2.stack.len() && low[(#[trigger] w2.stack[j]).node as int] <= #[trigger] rank(
            w2.order,
            a,
        ) implies low[w2.stack[j].node as int] <= low[a] && reach(
        g,
        w2.stack[j].node as int,
        a,
    ) by {
        assert(w2.stack[j].node == w.stack[j].node);
    }
    assert(nested(g, w2, low));
}

/// To enter an unmarked successor keeps the invariant.
proof fn lemma_descend(g: Graph, w: Walk, low: Seq<int>) -> (low2: Seq<int>)
    requires
        well_formed(g),
        walk_inv(g, w, low),
        w.stack.len() > 0,
        w.stack.last().next < g[w.stack.last().node as int].len(),
        !w.visited[g[w.stack.last().node as int][w.stack.last().next as int] as int],
    ensures
        walk_inv(g, explore_step(g, w), low2),
{
    let top = w.stack.last();
    let w2 = explore_step(g, w);
    let last = w.stack.len() - 1;
    let s = g[top.node as int][top.next as int] as int;
    let low2 = low.update(s, w.order.len() as int);
    assert(w.stack[last] == top);
    assert(0 <= s < g.len());
    lemma_unvisited_mark(w.visited, s);
    lemma_rank_range(w.order, s);
    lemma_reach_self(g, s);
    lemma_edge_at(g, top.node as int, top.next as int);
    assert(w2.stack.len() == w.stack.len() + 1);
    assert(w2.stack[last + 1].node == s);
    assert(forall|j: int| 0 <= j <= last ==> (#[trigger] w2.stack[j]).node == w.stack[j].node);
    assert(forall|j: int| 0 <= j <= last ==> (#[trigger] w.stack[j]).node != s);
    assert forall|y: int| 0 <= y < g.len() && #[trigger] w2.visited[y] implies rank(w2.order, y)
        >= 0 || on_stack(w2.stack, y) by {
        if y == s {
        } else if rank(w.order, y) < 0 {
            let j = choose|j: int| 0 <= j < w.stack.len() && (#[trigger] w.stack[j]).node == y;
            assert(w2.stack[j].node == y);
        }
    }
    assert(shape(g, w2, low2));
    assert forall|j: int, i: int| 0 <= j < w2.stack.len() && 0 <= i < w2.stack[j].next implies w2.visited[(
    #[trigger] g[w2.stack[j].node as int][i]) as int] by {
        if j == last && i == top.next {
        } else {
            assert(w.visited[g[w.stack[j].node as int][i] as int]);
        }
    }
    assert forall|a: int, i: int| rank(w2.order, a) >= 0 && 0 <= i < g[a].len() implies {
        let t = (#[trigger] g[a][i]) as int;
        w2.visited[t] && (0 <= rank(w2.order, t) < rank(w2.order, a) || low2[t] <= rank(
            w2.order,
            a,
        ))
    } by {
        let t = g[a][i] as int;
        assert(w.visited[t]);
    }
    assert(explored(g, w2, low2));
    assert forall|i: int, j: int| 0 <= i <= j < w2.stack.len() implies low2[(
    #[trigger] w2.stack[i]).node as int] <= low2[(#[trigger] w2.stack[j]).node as int] && reach(
        g,
        w2.stack[i].node as int,
        w2.stack[j].node as int,
    ) by {
        if j <= last {
            assert(w2.stack[i].node == w.stack[i].node);
            assert(w2.stack[j].node == w.stack[j].node);
        } else if i <= last {
            assert(w2.stack[i].node == w.stack[i].node);
            assert(reach(g, w.stack[i].node as int, w.stack[last].node as int));
            lemma_reach_edge(g, w.stack[i].node as int, top.node as int, s);
        }
    }
    assert forall|j: int, a: int|
        0 <= j < w2.stack.len() && low2[(#[trigger] w2.stack[j]).node as int] <= #[trigger] rank(
            w2.order,
            a,
        ) implies low2[w2.stack[j].node as int] <= low2[a] && reach(
        g,
        w2.stack[j].node as int,
        a,
    ) by {
        lemma_rank_range(w.order, a);
        if j <= last {
            assert(w2.stack[j].node == w.stack[j].node);
        }
    }
    assert forall|b: int, a: int|
        0 <= b < g.len() && 0 <= a < g.len() && 0 <= low2[b] <= #[trigger] rank(w2.order, a)
            <= #[trigger] rank(w2.order, b) implies low2[b] <= low2[a] && reach(g, b, a) by {
    }
    assert(nested(g, w2, low2));
    low2
}

/// One move keeps the invariant and the marks.
proof fn lemma_step(g: Graph, w: Walk, low: Seq<int>) -> (low2: Seq<int>)
    requires
        well_formed(g),
        walk_inv(g, w, low),
        w.stack.len() > 0,
    ensures
        walk_inv(g, explore_step(g, w), low2),
        marks_kept(w.visited, explore_step(g, w).visited),
{
    let top = w.stack.last();
    assert(w.stack[w.stack.len() - 1] == top);
    if top.next < g[top.node as int].len() {
        let s = g[top.node as int][top.next as int] as int;
        if !w.visited[s] {
            lemma_descend(g, w, low)
        } else {
            lemma_pass(g, w, low);
            low
        }
    } else {
        lemma_leave(g, w, low);
        low
    }
}

/// A traversal that starts in a state that meets the invariant comes to rest
/// in one that meets it, with an empty stack.
pub proof fn lemma_explore(g: Graph, w: Walk, low: Seq<int>) -> (low2: Seq<int>)
    requires
        well_formed(g),
        walk_inv(g, w, low),
    ensures
        walk_inv(g, explore(g, w), low2),
        explore(g, w).stack.len() == 0,
        marks_kept(w.visited, explore(g, w).visited),
    decreases unvisited(w.visited), w.stack.len(), pending(g, w.stack),
{
    if w.stack.len() == 0 {
        low
    } else {
        let top = w.stack.last();
        assert(w.stack[w.stack.len() - 1] == top);
        if top.next < g[top.node as int].len() {
            let s = g[top.node as int][top.next as int] as int;
            if !w.visited[s] {
                lemma_unvisited_mark(w.visited, s);
            }
        }
        let low1 = lemma_step(g, w, low);
        lemma_explore(g, explore_step(g, w), low1)
    }
}

/// The state after every node from `v` on has been taken as an entry point, in
/// increasing order, each one that is still unmarked starting a traversal.
pub open spec fn finish_from(g: Graph, v: nat, visited: Seq<bool>, order: Seq<usize>) -> Walk
    decreases g.len() - v,
{
    if v >= g.len() {
        Walk { stack: Seq::empty(), visited, order }
    } else if v < visited.len() && visited[v as int] {
        finish_from(g, v + 1, visited, order)
    } else {
        let w = explore(g, enter(v as usize, visited, order));
        finish_from(g, v + 1, w.visited, w.order)
    }
}

/// The nodes of `g` in the order in which the depth-first traversal finishes them.
pub open spec fn finish_order(g: Graph) -> Seq<usize> {
    finish_from(g, 0, Seq::new(g.len(), |x: int| false), Seq::empty()).order
}

/// No node of `p` stands later in `order` than position `bound`.
pub open spec fn confined(order: Seq<usize>, p: Seq<int>, bound: int) -> bool {
    forall|i: int| 0 <= i < p.len() ==> rank(order, #[trigger] p[i]) <= bound
}

/// `order` lists every node of `g`, and a node reaches every node from which a
/// path leads to it through nodes that stand no later than itself.
pub open spec fn is_post_order(g: Graph, order: Seq<usize>) -> bool {
    &&& order.len() <= g.len()
    &&& forall|q: int| 0 <= q < order.len() ==> (#[trigger] order[q]) < g.len()
    &&& forall|x: int| 0 <= x < g.len() ==> 0 <= #[trigger] rank(order, x)
    &&& forall|p: Seq<int>| #[trigger]
        is_path(g, p) && confined(order, p, rank(order, p[p.len() - 1])) ==> reach(
            g,
            p[p.len() - 1],
            p[0],
        )
}

/// Where nothing is marked, every node is unvisited.
proof fn lemma_unvisited_fresh(n: nat)
    ensures
        unvisited(Seq::new(n, |x: int| false)) == n,
    decreases n,
{
    if n > 0 {
        assert(Seq::new(n, |x: int| false).drop_last() =~= Seq::new((n - 1) as nat, |x: int| false));
        lemma_unvisited_fresh((n - 1) as nat);
    }
}

/// The state in which a traversal enters an unmarked node meets the invariant.
proof fn lemma_enter(g: Graph, v: int, visited: Seq<bool>, order: Seq<usize>, low: Seq<int>) -> (low2: Seq<int>)
    requires
        well_formed(g),
        walk_inv(g, Walk { stack: Seq::empty(), visited, order }, low),
        0 <= v < g.len(),
        !visited[v],
    ensures
        walk_inv(g, enter(v as usize, visited, order), low2),
        marks_kept(visited, enter(v as usize, visited, order).visited),
{
    let w = Walk { stack: Seq::<Frame>::empty(), visited, order };
    let w2 = enter(v as usize, visited, order);
    let low2 = low.update(v, order.len() as int);
    lemma_unvisited_mark(visited, v);
    lemma_rank_range(order, v);
    lemma_reach_self(g, v);
    assert(w2.stack[0].node == v);
    assert forall|y: int| 0 <= y < g.len() && #[trigger] w2.visited[y] implies rank(w2.order, y)
        >= 0 || on_stack(w2.stack, y) by {
        if y != v {
            assert(w.visited[y]);
            assert(!on_stack(w.stack, y));
        }
    }
    assert(shape(g, w2, low2));
    assert forall|a: int, i: int| rank(w2.order, a) >= 0 && 0 <= i < g[a].len() implies {
        let t = (#[trigger] g[a][i]) as int;
        w2.visited[t] && (0 <= rank(w2.order, t) < rank(w2.order, a) || low2[t] <= rank(
            w2.order,
            a,
        ))
    } by {
        let t = g[a][i] as int;
        assert(w.visited[t]);
    }
    assert(explored(g, w2, low2));
    assert forall|j: int, a: int|
        0 <= j < w2.stack.len() && low2[(#[trigger] w2.stack[j]).node as int] <= #[trigger] rank(
            w2.order,
            a,
        ) implies low2[w2.stack[j].node as int] <= low2[a] && reach(
        g,
        w2.stack[j].node as int,
        a,
    ) by {
        lemma_rank_range(order, a);
    }
    assert(nested(g, w2, low2));
    low2
}

/// The walk through the entry points keeps the invariant and marks every node.
proof fn lemma_finish_from(g: Graph, v: nat, visited: Seq<bool>, order: Seq<usize>, low: Seq<int>) -> (low2: Seq<int>)
    requires
        well_formed(g),
        walk_inv(g, Walk { stack: Seq::empty(), visited, order }, low),
        v <= g.len(),
        forall|x: int| 0 <= x < v ==> visited[x],
    ensures
        walk_inv(g, finish_from(g, v, visited, order), low2),
        finish_from(g, v, visited, order).stack.len() == 0,
        forall|x: int| 0 <= x < g.len() ==> finish_from(g, v, visited, order).visited[x],
    decreases g.len() - v,
{
    if v >= g.len() {
        low
    } else if visited[v as int] {
        lemma_finish_from(g, v + 1, visited, order, low)
    } else {
        let low1 = lemma_enter(g, v as int, visited, order, low);
        let w1 = enter(v as usize, visited, order);
        let low2 = lemma_explore(g, w1, low1);
        let w2 = explore(g, w1);
        assert forall|x: int| 0 <= x < v + 1 implies w2.visited[x] by {
            assert(w1.visited[x]);
        }
        assert(w2 == Walk { stack: Seq::empty(), visited: w2.visited, order: w2.order }) by {
            assert(w2.stack =~= Seq::empty());
        }
        lemma_finish_from(g, v + 1, w2.visited, w2.order, low2)
    }
}

/// A path that is confined to the positions up to its last node runs through
/// nodes that finished after that node was entered.
proof fn lemma_confined_low(g: Graph, w: Walk, low: Seq<int>, p: Seq<int>, i: int)
    requires
        well_formed(g),
        walk_inv(g, w, low),
        forall|x: int| 0 <= x < g.len() ==> 0 <= #[trigger] rank(w.order, x),
        is_path(g, p),
        confined(w.order, p, rank(w.order, p[p.len() - 1])),
        0 <= i < p.len(),
    ensures
        low[p[p.len() - 1]] <= rank(w.order, p[i]),
    decreases p.len() - i,
{
    let r = p[p.len() - 1];
    assert(0 <= rank(w.order, r));
    if i < p.len() - 1 {
        lemma_confined_low(g, w, low, p, i + 1);
        assert(hop(g, p, i));
        let a = p[i];
        let b = p[i + 1];
        assert(0 <= rank(w.order, a));
        assert(0 <= rank(w.order, b));
        let e = choose|e: int| 0 <= e < g[a].len() && (#[trigger] g[a][e]) == b;
        assert(rank(w.order, b) <= rank(w.order, r));
        if !(0 <= rank(w.order, b) < rank(w.order, a)) {
            assert(low[b] <= rank(w.order, a));
            assert(low[r] <= low[b]);
        }
    }
}

/// The finish order of a depth-first traversal is a post-order of the graph.
pub proof fn lemma_finish_order(g: Graph)
    requires
        well_formed(g),
    ensures
        is_post_order(g, finish_order(g)),
{
    let fresh = Seq::new(g.len(), |x: int| false);
    let low0 = Seq::new(g.len(), |x: int| 0int);
    let w0 = Walk { stack: Seq::<Frame>::empty(), visited: fresh, order: Seq::<usize>::empty() };
    lemma_unvisited_fresh(g.len());
    assert(walk_inv(g, w0, low0));
    let low = lemma_finish_from(g, 0, fresh, Seq::empty(), low0);
    let w = finish_from(g, 0, fresh, Seq::empty());
    let order = finish_order(g);
    assert forall|q: int| 0 <= q < order.len() implies (#[trigger] order[q]) < g.len() by {
        lemma_rank_of_entry(order, q);
    }
    assert forall|x: int| 0 <= x < g.len() implies 0 <= #[trigger] rank(order, x) by {
        assert(w.visited[x]);
        assert(!on_stack(w.stack, x));
    }
    assert forall|p: Seq<int>| #[trigger]
        is_path(g, p) && confined(order, p, rank(order, p[p.len() - 1])) implies reach(
        g,
        p[p.len() - 1],
        p[0],
    ) by {
        lemma_confined_low(g, w, low, p, 0);
        let r = p[p.len() - 1];
        assert(0 <= rank(order, r));
        assert(0 <= rank(order, p[0]));
        assert(w.visited[r]);
    }
}

} // verus!
