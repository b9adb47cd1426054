use crate::graph::{adjacency, well_formed, Graph};
use vstd::prelude::*;

verus! {

/// One entry of the explicit traversal stack: a node that has been entered and
/// the index of the next successor to look at.
#[derive(Clone, Copy)]
pub struct Frame {
    pub node: usize,
    pub next: usize,
}

/// The number of nodes that are not yet marked.
pub open spec fn unvisited(visited: Seq<bool>) -> nat
    decreases visited.len(),
{
    if visited.len() == 0 {
        0
    } else {
        unvisited(visited.drop_last()) + if visited.last() {
            0nat
        } else {
            1nat
        }
    }
}

/// To mark an unmarked node leaves one unvisited node less.
pub proof fn lemma_unvisited_mark(visited: Seq<bool>, i: int)
    requires
        0 <= i < visited.len(),
        !visited[i],
    ensures
        unvisited(visited.update(i, true)) + 1 == unvisited(visited),
    decreases visited.len(),
{
    let marked = visited.update(i, true);
    if i == visited.len() - 1 {
        assert(marked.drop_last() =~= visited.drop_last());
    } else {
        assert(marked.drop_last() =~= visited.drop_last().update(i, true));
        lemma_unvisited_mark(visited.drop_last(), i);
    }
}

/// The successors that the top frame has still to look at.
pub open spec fn pending(g: Graph, stack: Seq<Frame>) -> nat {
    if stack.len() > 0 && stack.last().node < g.len() && stack.last().next <= g[stack.last().node as int].len() {
        (g[stack.last().node as int].len() - stack.last().next) as nat
    } else {
        0
    }
}

/// Every frame names a node of the graph and an index within its successors.
pub open spec fn frames_fit(g: Graph, stack: Seq<Frame>) -> bool {
    forall|j: int|
        0 <= j < stack.len() ==> (#[trigger] stack[j]).node < g.len() && stack[j].next
            <= g[stack[j].node as int].len()
}

/// The state of the finish-order traversal: the stack of entered nodes, the
/// marks, and the nodes that are finished, in the order in which they finished.
pub struct Walk {
    pub stack: Seq<Frame>,
    pub visited: Seq<bool>,
    pub order: Seq<usize>,
}

/// The state in which the traversal enters `root`.
pub open spec fn enter(root: usize, visited: Seq<bool>, order: Seq<usize>) -> Walk {
    Walk { stack: seq![Frame { node: root, next: 0 }], visited: visited.update(root as int, true), order }
}

/// One move of the finish-order traversal. The top frame either looks at its
/// next successor, entering it if it is unmarked, or, with no successor left,
/// leaves the stack and is appended to the order.
pub open spec fn explore_step(g: Graph, w: Walk) -> Walk {
    let top = w.stack.last();
    let last = w.stack.len() - 1;
    if top.node < g.len() && top.next < g[top.node as int].len() {
        let successor = g[top.node as int][top.next as int];
        let advanced = w.stack.update(last, Frame { node: top.node, next: (top.next + 1) as usize });
        if successor < w.visited.len() && !w.visited[successor as int] {
            Walk {
                stack: advanced.push(Frame { node: successor, next: 0 }),
                visited: w.visited.update(successor as int, true),
                order: w.order,
            }
        } else {
            Walk { stack: advanced, visited: w.visited, order: w.order }
        }
    } else {
        Walk { stack: w.stack.drop_last(), visited: w.visited, order: w.order.push(top.node) }
    }
}

/// The state in which the traversal comes to rest: moves are made until the
/// stack is empty.
pub open spec fn explore(g: Graph, w: Walk) -> Walk
    decreases unvisited(w.visited), w.stack.len(), pending(g, w.stack),
    when well_formed(g)
    via explore_decreases
{
    if w.stack.len() == 0 {
        w
    } else {
        explore(g, explore_step(g, w))
    }
}

#[via_fn]
proof fn explore_decreases(g: Graph, w: Walk) {
    if w.stack.len() > 0 {
        let top = w.stack.last();
        if top.node < g.len() && top.next < g[top.node as int].len() {
            let successor = g[top.node as int][top.next as int];
            if successor < w.visited.len() && !w.visited[successor as int] {
                lemma_unvisited_mark(w.visited, successor as int);
            }
        }
    }
}

/// Depth-first traversal from `v` through the graph of `lists`, with an
/// explicit stack. Marks every node that it enters and appends each to
/// `order` when all its successors are done.
pub fn dfs(v: usize, lists: &Vec<Vec<usize>>, visited: &mut Vec<bool>, order: &mut Vec<usize>)
    requires
        well_formed(adjacency(*lists)),
        v < lists.len(),
        old(visited).len() == lists.len(),
        !old(visited)[v as int],
    ensures
        explore(adjacency(*lists), enter(v, old(visited)@, old(order)@)) == (Walk {
            stack: Seq::empty(),
            visited: final(visited)@,
            order: final(order)@,
        }),
        final(visited).len() == lists.len(),
{
    let ghost g = adjacency(*lists);
    let ghost start = enter(v, visited@, order@);
    let mut stack: Vec<Frame> = Vec::new();
    visited.set(v, true);
    stack.push(Frame { node: v, next: 0 });
    assert(stack@ =~= start.stack);
    while stack.len() > 0
        invariant
            g == adjacency(*lists),
            well_formed(g),
            frames_fit(g, stack@),
            visited.len() == lists.len(),
            explore(g, Walk { stack: stack@, visited: visited@, order: order@ }) == explore(g, start),
        decreases unvisited(visited@), stack.len(), pending(g, stack@),
    {
        let ghost before = Walk { stack: stack@, visited: visited@, order: order@ };
        let last = stack.len() - 1;
        let top = stack[last];
        assert(g[top.node as int] == lists@[top.node as int]@);
        if top.next < lists[top.node].len() {
            let successor = lists[top.node][top.next];
            assert(successor == g[top.node as int][top.next as int]);
            stack.set(last, Frame { node: top.node, next: top.next + 1 });
            if !visited[successor] {
                proof {
                    lemma_unvisited_mark(visited@, successor as int);
                }
                visited.set(successor, true);
                stack.push(Frame { node: successor, next: 0 });
            }
        } else {
            stack.pop();
            order.push(top.node);
        }
        assert(Walk { stack: stack@, visited: visited@, order: order@ } == explore_step(g, before));
    }
    assert(stack@ =~= Seq::empty());
}

/// The state of the labelling traversal: the stack of entered nodes, the marks,
/// and the component id of every marked node.
pub struct Sweep {
    pub stack: Seq<Frame>,
    pub visited: Seq<bool>,
    pub label: Seq<usize>,
}

/// The state in which the labelling traversal enters `root` and gives it the id `id`.
pub open spec fn claim(root: usize, visited: Seq<bool>, label: Seq<usize>, id: usize) -> Sweep {
    Sweep {
        stack: seq![Frame { node: root, next: 0 }],
        visited: visited.update(root as int, true),
        label: label.update(root as int, id),
    }
}

/// One move of the labelling traversal. The top frame either looks at its next
/// successor, entering and labelling it if it is unmarked, or, with no
/// successor left, leaves the stack.
pub open spec fn sweep_step(g: Graph, s: Sweep, id: usize) -> Sweep {
    let top = s.stack.last();
    let last = s.stack.len() - 1;
    if top.node < g.len() && top.next < g[top.node as int].len() {
        let successor = g[top.node as int][top.next as int];
        let advanced = s.stack.update(last, Frame { node: top.node, next: (top.next + 1) as usize });
        if successor < s.visited.len() && !s.visited[successor as int] {
            Sweep {
                stack: advanced.push(Frame { node: successor, next: 0 }),
                visited: s.visited.update(successor as int, true),
                label: s.label.update(successor as int, id),
            }
        } else {
            Sweep { stack: advanced, visited: s.visited, label: s.label }
        }
    } else {
        Sweep { stack: s.stack.drop_last(), visited: s.visited, label: s.label }
    }
}

/// The state in which the labelling traversal comes to rest.
pub open spec fn sweep(g: Graph, s: Sweep, id: usize) -> Sweep
    decreases unvisited(s.visited), s.stack.len(), pending(g, s.stack),
    when well_formed(g)
    via sweep_decreases
{
    if s.stack.len() == 0 {
        s
    } else {
        sweep(g, sweep_step(g, s, id), id)
    }
}

#[via_fn]
proof fn sweep_decreases(g: Graph, s: Sweep, id: usize) {
    if s.stack.len() > 0 {
        let top = s.stack.last();
        if top.node < g.len() && top.next < g[top.node as int].len() {
            let successor = g[top.node as int][top.next as int];
            if successor < s.visited.len() && !s.visited[successor as int] {
                lemma_unvisited_mark(s.visited, successor as int);
            }
        }
    }
}

/// Depth-first traversal from `v` through the graph of `lists`, which holds
/// the edges of the finish-order traversal turned around, with an explicit
/// stack. Marks every node that it enters and gives it the id
/// `current_component`.
pub fn reverse_dfs(
    v: usize,
    lists: &Vec<Vec<usize>>,
    visited: &mut Vec<bool>,
    component: &mut Vec<usize>,
    current_component: usize,
)
    requires
        well_formed(adjacency(*lists)),
        v < lists.len(),
        old(visited).len() == lists.len(),
        old(component).len() == lists.len(),
        !old(visited)[v as int],
    ensures
        sweep(
            adjacency(*lists),
            claim(v, old(visited)@, old(component)@, current_component),
            current_component,
        ) == (Sweep { stack: Seq::empty(), visited: final(visited)@, label: final(component)@ }),
        final(visited).len() == lists.len(),
        final(component).len() == lists.len(),
{
    let ghost g = adjacency(*lists);
    let ghost start = claim(v, visited@, component@, current_component);
    let mut stack: Vec<Frame> = Vec::new();
    visited.set(v, true);
    component.set(v, current_component);
    stack.push(Frame { node: v, next: 0 });
    assert(stack@ =~= start.stack);
    while stack.len() > 0
        invariant
            g == adjacency(*lists),
            well_formed(g),
            frames_fit(g, stack@),
            visited.len() == lists.len(),
            component.len() == lists.len(),
            sweep(g, Sweep { stack: stack@, visited: visited@, label: component@ }, current_component)
                == sweep(g, start, current_component),
        decreases unvisited(visited@), stack.len(), pending(g, stack@),
    {
        let ghost before = Sweep { stack: stack@, visited: visited@, label: component@ };
        let last = stack.len() - 1;
        let top = stack[last];
        assert(g[top.node as int] == lists@[top.node as int]@);
        if top.next < lists[top.node].len() {
            let successor = lists[top.node][top.next];
            assert(successor == g[top.node as int][top.next as int]);
            stack.set(last, Frame { node: top.node, next: top.next + 1 });
            if !visited[successor] {
                proof {
                    lemma_unvisited_mark(visited@, successor as int);
                }
                visited.set(successor, true);
                component.set(successor, current_component);
                stack.push(Frame { node: successor, next: 0 });
            }
        } else {
            stack.pop();
        }
        assert(Sweep { stack: stack@, visited: visited@, label: component@ } == sweep_step(
            g,
            before,
            current_component,
        ));
    }
    assert(stack@ =~= Seq::empty());
}

} // verus!
