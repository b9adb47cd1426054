use crate::components::{component_ids, lemma_component_ids, numbers_components};
use crate::graph::{
    has_edge, hop, is_path, is_transpose, path_between, strongly_connected, well_formed, Graph,
};
use crate::literal::{literal_node, negation};
use vstd::prelude::*;

verus! {

/// A disjunction of two literals: variable `x`, negated if `x_neg`, or
/// variable `y`, negated if `y_neg`.
pub struct Clause {
    pub x: nat,
    pub x_neg: bool,
    pub y: nat,
    pub y_neg: bool,
}

impl Clause {
    /// The node of the first literal.
    pub open spec fn first(self) -> nat {
        literal_node(self.x, self.x_neg)
    }

    /// The node of the second literal.
    pub open spec fn second(self) -> nat {
        literal_node(self.y, self.y_neg)
    }

    /// The clause is true under `a`.
    pub open spec fn holds(self, a: Seq<bool>) -> bool {
        (a[self.x as int] != self.x_neg) || (a[self.y as int] != self.y_neg)
    }

    /// The clause asks for an edge from `u` to `v`: if one literal is false,
    /// the other is true.
    pub open spec fn implies(self, u: int, v: int) -> bool {
        (u == negation(self.first()) && v == self.second()) || (u == negation(self.second()) && v
            == self.first())
    }
}

/// A conjunction of clauses over the variables `0 .. num_variables`.
pub struct Formula {
    pub num_variables: nat,
    pub clauses: Seq<Clause>,
}

impl Formula {
    /// The formula without its last clause.
    pub open spec fn earlier(self) -> Formula {
        Formula { num_variables: self.num_variables, clauses: self.clauses.drop_last() }
    }

    /// The formula with one more clause.
    pub open spec fn extended(self, c: Clause) -> Formula {
        Formula { num_variables: self.num_variables, clauses: self.clauses.push(c) }
    }

    /// Every clause speaks of variables of the formula.
    pub open spec fn in_range(self) -> bool {
        forall|i: int|
            0 <= i < self.clauses.len() ==> (#[trigger] self.clauses[i]).x < self.num_variables
                && self.clauses[i].y < self.num_variables
    }

    /// `a` gives every variable a value and makes every clause true.
    pub open spec fn satisfied_by(self, a: Seq<bool>) -> bool {
        &&& a.len() == self.num_variables
        &&& forall|i: int| 0 <= i < self.clauses.len() ==> (#[trigger] self.clauses[i]).holds(a)
    }

    /// Some assignment makes every clause true.
    pub open spec fn satisfiable(self) -> bool {
        exists|a: Seq<bool>| self.satisfied_by(a)
    }

    /// Some clause asks for an edge from `u` to `v`.
    pub open spec fn implied(self, u: int, v: int) -> bool {
        exists|i: int| 0 <= i < self.clauses.len() && (#[trigger] self.clauses[i]).implies(u, v)
    }

    /// The implication graph: two nodes per variable, and for every clause, in
    /// the order in which the clauses stand, an edge from the negation of each
    /// literal to the other literal.
    pub open spec fn implication_graph(self) -> Graph
        decreases self.clauses.len(),
    {
        if self.clauses.len() == 0 {
            Seq::new(2 * self.num_variables, |u: int| Seq::empty())
        } else {
            let c = self.clauses.last();
            let g = self.earlier().implication_graph();
            add_edge(add_edge(g, negation(c.first()), c.second()), negation(c.second()), c.first())
        }
    }

    /// The implication graph with every edge turned around.
    pub open spec fn reverse_graph(self) -> Graph
        decreases self.clauses.len(),
    {
        if self.clauses.len() == 0 {
            Seq::new(2 * self.num_variables, |u: int| Seq::empty())
        } else {
            let c = self.clauses.last();
            let g = self.earlier().reverse_graph();
            add_edge(add_edge(g, c.second(), negation(c.first())), c.first(), negation(c.second()))
        }
    }

    /// The formula can be held in memory: its clauses are in range, and both
    /// graphs have node indices and list lengths that fit in a machine word.
    pub open spec fn representable(self) -> bool {
        &&& self.in_range()
        &&& well_formed(self.implication_graph())
        &&& well_formed(self.reverse_graph())
    }

    /// The component id of every literal node.
    pub open spec fn components(self) -> Seq<usize> {
        component_ids(self.implication_graph(), self.reverse_graph())
    }

    /// No variable shares a component with its negation.
    pub open spec fn consistent(self) -> bool {
        forall|v: int|
            0 <= v < self.num_variables ==> self.components()[2 * v] != #[trigger] self.components()[2
                * v + 1]
    }

    /// The assignment that the resolver derives from the component ids: a
    /// variable is true where its own node has the smaller id, that is, where
    /// its negation may imply it but it does not imply its negation.
    pub open spec fn solution(self) -> Seq<bool> {
        Seq::new(
            self.num_variables,
            |v: int| self.components()[2 * v] < self.components()[2 * v + 1],
        )
    }
}

/// The graph with `v` appended to the successors of `u`.
pub open spec fn add_edge(g: Graph, u: nat, v: nat) -> Graph {
    g.update(u as int, g[u as int].push(v as usize))
}

/// The literal that `node` stands for is true under `a`.
pub open spec fn node_holds(a: Seq<bool>, node: int) -> bool {
    a[node / 2] != (node % 2 == 1)
}

/// A graph with one more entry has one more edge, and no other.
proof fn lemma_add_edge(g: Graph, a: nat, b: nat)
    requires
        a < g.len(),
        b <= usize::MAX,
    ensures
        add_edge(g, a, b).len() == g.len(),
        forall|u: int, v: int| #[trigger]
            has_edge(add_edge(g, a, b), u, v) <==> has_edge(g, u, v) || (u == a && v == b),
        forall|u: int, i: int|
            0 <= u < g.len() && 0 <= i < add_edge(g, a, b)[u].len() ==> (#[trigger] add_edge(
                g,
                a,
                b,
            )[u][i]) == b || (i < g[u].len() && add_edge(g, a, b)[u][i] == g[u][i]),
{
    let g2 = add_edge(g, a, b);
    assert forall|u: int, v: int| #[trigger] has_edge(g2, u, v) implies has_edge(g, u, v) || (u == a
        && v == b) by {
        let i = choose|i: int| 0 <= i < g2[u].len() && (#[trigger] g2[u][i]) == v;
        if u == a {
            if i < g[u].len() {
                assert(g[u][i] == v);
            }
        } else {
            assert(g[u][i] == v);
        }
    }
    assert forall|u: int, v: int| has_edge(g, u, v) || (u == a && v == b) implies #[trigger] has_edge(
        g2,
        u,
        v,
    ) by {
        if has_edge(g, u, v) {
            let i = choose|i: int| 0 <= i < g[u].len() && (#[trigger] g[u][i]) == v;
            assert(g2[u][i] == v);
        } else {
            assert(g2[a as int][g[a as int].len() as int] == v);
        }
    }
}

/// Both graphs have two nodes per variable and hold exactly the edges that
/// the clauses ask for, the reverse graph with each edge turned around.
pub proof fn lemma_graph_edges(f: Formula)
    requires
        f.in_range(),
        2 * f.num_variables <= usize::MAX,
    ensures
        f.implication_graph().len() == 2 * f.num_variables,
        f.reverse_graph().len() == 2 * f.num_variables,
        forall|u: int, v: int| #[trigger] has_edge(f.implication_graph(), u, v) <==> f.implied(u, v),
        forall|u: int, v: int| #[trigger] has_edge(f.reverse_graph(), v, u) <==> f.implied(u, v),
        forall|u: int, i: int|
            0 <= u < 2 * f.num_variables && 0 <= i < f.implication_graph()[u].len() ==> (
            #[trigger] f.implication_graph()[u][i]) < 2 * f.num_variables,
        forall|u: int, i: int|
            0 <= u < 2 * f.num_variables && 0 <= i < f.reverse_graph()[u].len() ==> (
            #[trigger] f.reverse_graph()[u][i]) < 2 * f.num_variables,
        is_transpose(f.implication_graph(), f.reverse_graph()),
    decreases f.clauses.len(),
{
    let g = f.implication_graph();
    let r = f.reverse_graph();
    if f.clauses.len() == 0 {
        assert forall|u: int, v: int| !has_edge(g, u, v) && !has_edge(r, v, u) && !f.implied(u, v) by {}
    } else {
        let e = f.earlier();
        let c = f.clauses.last();
        let last = f.clauses.len() - 1;
        assert(f.clauses[last] == c);
        assert(forall|i: int| 0 <= i < e.clauses.len() ==> e.clauses[i] == f.clauses[i]);
        lemma_graph_edges(e);
        let g0 = e.implication_graph();
        let g1 = add_edge(g0, negation(c.first()), c.second());
        lemma_add_edge(g0, negation(c.first()), c.second());
        lemma_add_edge(g1, negation(c.second()), c.first());
        let r0 = e.reverse_graph();
        let r1 = add_edge(r0, c.second(), negation(c.first()));
        lemma_add_edge(r0, c.second(), negation(c.first()));
        lemma_add_edge(r1, c.first(), negation(c.second()));
        assert forall|u: int, v: int| f.implied(u, v) <==> e.implied(u, v) || c.implies(u, v) by {
            if f.implied(u, v) {
                let i = choose|i: int| 0 <= i < f.clauses.len() && (#[trigger] f.clauses[i]).implies(u, v);
                if i < last {
                    assert(e.clauses[i].implies(u, v));
                }
            }
            if e.implied(u, v) {
                let i = choose|i: int| 0 <= i < e.clauses.len() && (#[trigger] e.clauses[i]).implies(u, v);
                assert(f.clauses[i].implies(u, v));
            }
            if c.implies(u, v) {
                assert(f.clauses[last].implies(u, v));
            }
        }
        assert forall|u: int, v: int| #[trigger] has_edge(g, u, v) <==> f.implied(u, v) by {
            assert(has_edge(g, u, v) <==> has_edge(g1, u, v) || (u == negation(c.second()) && v
                == c.first()));
            assert(has_edge(g1, u, v) <==> has_edge(g0, u, v) || (u == negation(c.first()) && v
                == c.second()));
        }
        assert forall|u: int, v: int| #[trigger] has_edge(r, v, u) <==> f.implied(u, v) by {
            assert(has_edge(r, v, u) <==> has_edge(r1, v, u) || (v == c.first() && u == negation(
                c.second(),
            )));
            assert(has_edge(r1, v, u) <==> has_edge(r0, v, u) || (v == c.second() && u == negation(
                c.first(),
            )));
        }
        assert forall|u: int, v: int| has_edge(g, u, v) <==> has_edge(r, v, u) by {
            assert(has_edge(g, u, v) <==> f.implied(u, v));
            assert(has_edge(r, v, u) <==> f.implied(u, v));
        }
    }
}

/// The edges of one clause are in the implication graph.
pub proof fn lemma_clause_edges(f: Formula, i: int)
    requires
        f.in_range(),
        2 * f.num_variables <= usize::MAX,
        0 <= i < f.clauses.len(),
    ensures
        has_edge(f.implication_graph(), negation(f.clauses[i].first()) as int, f.clauses[i].second() as int),
        has_edge(f.implication_graph(), negation(f.clauses[i].second()) as int, f.clauses[i].first() as int),
{
    lemma_graph_edges(f);
    let c = f.clauses[i];
    assert(c.implies(negation(c.first()) as int, c.second() as int));
    assert(c.implies(negation(c.second()) as int, c.first() as int));
    assert(f.implied(negation(c.first()) as int, c.second() as int));
    assert(f.implied(negation(c.second()) as int, c.first() as int));
}

/// An assignment that satisfies the formula never makes the source of an edge
/// true and its target false.
proof fn lemma_edge_respected(f: Formula, a: Seq<bool>, u: int, v: int)
    requires
        f.in_range(),
        f.satisfied_by(a),
        f.implied(u, v),
    ensures
        node_holds(a, u) ==> node_holds(a, v),
{
    let i = choose|i: int| 0 <= i < f.clauses.len() && (#[trigger] f.clauses[i]).implies(u, v);
    let c = f.clauses[i];
    assert(c.holds(a));
}

/// An assignment that satisfies the formula and makes the first node of a
/// path true makes every node of it true.
proof fn lemma_path_respected(f: Formula, a: Seq<bool>, p: Seq<int>, i: int)
    requires
        f.in_range(),
        2 * f.num_variables <= usize::MAX,
        f.satisfied_by(a),
        is_path(f.implication_graph(), p),
        node_holds(a, p[0]),
        0 <= i < p.len(),
    ensures
        node_holds(a, p[i]),
    decreases i,
{
    if i > 0 {
        lemma_path_respected(f, a, p, i - 1);
        assert(hop(f.implication_graph(), p, i - 1));
        lemma_graph_edges(f);
        lemma_edge_respected(f, a, p[i - 1], p[i]);
    }
}

/// Where no variable shares a component with its negation, the derived
/// assignment makes every clause true.
pub proof fn lemma_solution_satisfies(f: Formula)
    requires
        f.representable(),
        f.consistent(),
    ensures
        f.satisfied_by(f.solution()),
{
    let ids = f.components();
    lemma_component_ids_of(f);
    let a = f.solution();
    assert forall|i: int| 0 <= i < f.clauses.len() implies (#[trigger] f.clauses[i]).holds(a) by {
        let c = f.clauses[i];
        lemma_clause_edges(f, i);
        let x = c.first() as int;
        let y = c.second() as int;
        assert(ids[negation(x as nat) as int] >= ids[y]);
        assert(ids[negation(y as nat) as int] >= ids[x]);
        assert(ids[2 * (c.x as int)] != ids[2 * (c.x as int) + 1]);
        assert(ids[2 * (c.y as int)] != ids[2 * (c.y as int) + 1]);
    }
}

/// The component ids of a representable formula number the strongly
/// connected components of its implication graph, in a reverse topological
/// order.
pub proof fn lemma_component_ids_of(f: Formula)
    requires
        f.representable(),
    ensures
        2 * f.num_variables <= usize::MAX,
        f.implication_graph().len() == 2 * f.num_variables,
        numbers_components(f.implication_graph(), f.components()),
{
    assert(2 * f.num_variables <= usize::MAX) by {
        lemma_graph_len(f);
    }
    lemma_graph_edges(f);
    lemma_component_ids(f.implication_graph(), f.reverse_graph());
}

/// The implication graph has two nodes per variable.
proof fn lemma_graph_len(f: Formula)
    requires
        f.in_range(),
    ensures
        f.implication_graph().len() == 2 * f.num_variables,
    decreases f.clauses.len(),
{
    if f.clauses.len() > 0 {
        let e = f.earlier();
        assert(forall|i: int| 0 <= i < e.clauses.len() ==> e.clauses[i] == f.clauses[i]);
        lemma_graph_len(e);
    }
}

/// A formula is satisfiable exactly if no variable shares a strongly
/// connected component of the implication graph with its negation.
pub proof fn lemma_satisfiable_iff_consistent(f: Formula)
    requires
        f.representable(),
    ensures
        f.satisfiable() <==> f.consistent(),
{
    let g = f.implication_graph();
    let ids = f.components();
    lemma_component_ids_of(f);
    if f.consistent() {
        lemma_solution_satisfies(f);
    }
    if f.satisfiable() {
        let a = choose|a: Seq<bool>| f.satisfied_by(a);
        assert forall|v: int| 0 <= v < f.num_variables implies ids[2 * v] != #[trigger] ids[2 * v
            + 1] by {
            if ids[2 * v] == ids[2 * v + 1] {
                let pos = 2 * v;
                let neg = 2 * v + 1;
                assert(strongly_connected(g, pos, neg));
                let p = choose|p: Seq<int>| #[trigger] path_between(g, p, pos, neg);
                let q = choose|q: Seq<int>| #[trigger] path_between(g, q, neg, pos);
                if a[v] {
                    lemma_path_respected(f, a, p, p.len() - 1);
                } else {
                    lemma_path_respected(f, a, q, q.len() - 1);
                }
            }
        }
    }
}

} // verus!
