use crate::components::{component_ids, label_from, numbers_components};
use crate::formula::{
    add_edge, lemma_component_ids_of, lemma_graph_edges, lemma_satisfiable_iff_consistent,
    lemma_solution_satisfies, Clause, Formula,
};
use crate::graph::{adjacency, Graph};
use crate::literal::{lemma_flip_lowest_bit, literal_node, negation};
use crate::postorder::{finish_from, finish_order, lemma_finish_order};
use crate::resolve::{
    lemma_decide, lemma_next_entry, lemma_resolved, lemma_same_nodes, lemma_skip, resolved_from,
    sorted_nodes,
};
use crate::traversal::{dfs, reverse_dfs};
use vstd::prelude::*;

verus! {

/// What an instance stands for: the formula built so far and the assignment
/// that the last successful `solve` left behind.
pub struct Model {
    pub formula: Formula,
    pub assignment: Seq<bool>,
}

/// A 2-SAT instance: the implication graph of the clauses added so far, the
/// same graph with every edge turned around, and the assignment buffer.
pub struct TwoSAT {
    num_variables: usize,
    adj_list: Vec<Vec<usize>>,
    reverse_adj_list: Vec<Vec<usize>>,
    assignment: Vec<bool>,
    clauses: Ghost<Seq<Clause>>,
}

impl View for TwoSAT {
    type V = Model;

    closed spec fn view(&self) -> Model {
        Model {
            formula: Formula { num_variables: self.num_variables as nat, clauses: self.clauses@ },
            assignment: self.assignment@,
        }
    }
}

/// How `solve` relates the instance before and after the call to its result:
/// the formula stays, the result says whether it is satisfiable, and the
/// assignment buffer is overwritten exactly if it is.
pub open spec fn solved(before: Model, sat: bool, after: Model) -> bool {
    &&& after.formula == before.formula
    &&& sat == before.formula.satisfiable()
    &&& after.assignment == if sat {
        before.formula.solution()
    } else {
        before.assignment
    }
}

/// `n` lists without an entry.
fn empty_lists(n: usize) -> (lists: Vec<Vec<usize>>)
    ensures
        adjacency(lists) == Seq::new(n as nat, |u: int| Seq::<usize>::empty()),
{
    let mut lists: Vec<Vec<usize>> = Vec::new();
    while lists.len() < n
        invariant
            lists.len() <= n,
            forall|u: int| 0 <= u < lists.len() ==> (#[trigger] lists@[u])@.len() == 0,
        decreases n - lists.len(),
    {
        lists.push(Vec::new());
    }
    assert(adjacency(lists) =~= Seq::new(n as nat, |u: int| Seq::<usize>::empty())) by {
        assert forall|u: int| 0 <= u < n implies #[trigger] adjacency(lists)[u] == Seq::<usize>::empty() by {
            assert(lists@[u]@ =~= Seq::<usize>::empty());
        }
    }
    lists
}

/// The nodes `0 .. n`, in increasing order.
fn node_range(n: usize) -> (nodes: Vec<usize>)
    ensures
        nodes@ == Seq::new(n as nat, |i: int| i as usize),
{
    let mut nodes: Vec<usize> = Vec::new();
    while nodes.len() < n
        invariant
            nodes.len() <= n,
            forall|i: int| 0 <= i < nodes.len() ==> nodes@[i] == i,
        decreases n - nodes.len(),
    {
        nodes.push(nodes.len());
    }
    assert(nodes@ =~= Seq::new(n as nat, |i: int| i as usize));
    nodes
}

/// `n` truth values, none of them decided.
fn undecided(n: usize) -> (value: Vec<Option<bool>>)
    ensures
        value.len() == n,
        forall|w: int| 0 <= w < n ==> (#[trigger] value@[w]).is_none(),
{
    let mut value: Vec<Option<bool>> = Vec::new();
    while value.len() < n
        invariant
            value.len() <= n,
            forall|w: int| 0 <= w < value.len() ==> (#[trigger] value@[w]).is_none(),
        decreases n - value.len(),
    {
        value.push(None);
    }
    value
}

/// The key by which a node is sorted: its component id.
fn component_of(scc: &Vec<usize>, v: usize) -> (id: usize)
    requires
        v < scc.len(),
    ensures
        id == scc[v as int],
{
    scc[v]
}

/// `slice::sort_by_key` of the standard library, with the component id of a
/// node as its key. That function sorts stably: the result holds the same
/// nodes as before, no node stands before one with a smaller key, and nodes
/// with equal keys keep the order in which they stood.
#[verifier::external_body]
fn sort_by_component(order: &mut Vec<usize>, scc: &Vec<usize>)
    requires
        forall|i: int| 0 <= i < old(order).len() ==> old(order)[i] < scc.len(),
    ensures
        final(order)@.to_multiset() == old(order)@.to_multiset(),
        forall|i: int, j: int|
            0 <= i <= j < final(order).len() ==> scc[final(order)[i] as int] <= scc[final(order)[j] as int],
        old(order)@.no_duplicates() ==> forall|i: int, j: int, a: int, b: int|
            0 <= i < j < final(order).len() && 0 <= a < old(order).len() && 0 <= b < old(order).len()
                && old(order)[a] == final(order)[i] && old(order)[b] == final(order)[j]
                && scc[final(order)[i] as int] == scc[final(order)[j] as int] ==> a < b,
{
    order.sort_by_key(|v| component_of(scc, *v));
}

impl TwoSAT {
    /// The graph that the instance holds: for every node, the nodes that it implies.
    pub closed spec fn forward(&self) -> Graph {
        adjacency(self.adj_list)
    }

    /// The reverse graph that the instance holds: for every node, the nodes
    /// that imply it.
    pub closed spec fn backward(&self) -> Graph {
        adjacency(self.reverse_adj_list)
    }

    /// The graphs are those of the formula, and the buffer has one value per variable.
    pub closed spec fn wf(&self) -> bool {
        &&& 2 * self.num_variables <= usize::MAX
        &&& self@.formula.in_range()
        &&& self.forward() == self@.formula.implication_graph()
        &&& self.backward() == self@.formula.reverse_graph()
        &&& self.assignment.len() == self.num_variables
    }

    /// What a well-formed instance tells about its model.
    pub proof fn lemma_wf(&self)
        requires
            self.wf(),
        ensures
            self@.formula.representable(),
            2 * self@.formula.num_variables <= usize::MAX,
            self@.assignment.len() == self@.formula.num_variables,
            self.forward() == self@.formula.implication_graph(),
            self.backward() == self@.formula.reverse_graph(),
    {
        lemma_graph_edges(self@.formula);
        let g = adjacency(self.adj_list);
        let r = adjacency(self.reverse_adj_list);
        assert forall|u: int| 0 <= u < g.len() implies (#[trigger] g[u]).len() <= usize::MAX by {
            assert(g[u] == self.adj_list@[u]@);
            assert(self.adj_list@[u].len() <= usize::MAX);
        }
        assert forall|u: int| 0 <= u < r.len() implies (#[trigger] r[u]).len() <= usize::MAX by {
            assert(r[u] == self.reverse_adj_list@[u]@);
            assert(self.reverse_adj_list@[u].len() <= usize::MAX);
        }
    }

    /// An instance over `num_variables` variables, without clauses, every
    /// variable false in the assignment buffer.
    pub fn new(num_variables: usize) -> (s: Self)
        requires
            2 * num_variables <= usize::MAX,
        ensures
            s.wf(),
            s@.formula == (Formula { num_variables: num_variables as nat, clauses: Seq::empty() }),
            s@.assignment == Seq::new(num_variables as nat, |v: int| false),
            s.forward() == Seq::new(2 * num_variables as nat, |u: int| Seq::<usize>::empty()),
            s.backward() == Seq::new(2 * num_variables as nat, |u: int| Seq::<usize>::empty()),
    {
        let adj_list = empty_lists(2 * num_variables);
        let reverse_adj_list = empty_lists(2 * num_variables);
        let assignment = vec![false; num_variables];
        assert(assignment@ =~= Seq::new(num_variables as nat, |v: int| false));
        Self { num_variables, adj_list, reverse_adj_list, assignment, clauses: Ghost(Seq::empty()) }
    }

    /// Adds the clause "`x`, negated if `x_neg`, or `y`, negated if `y_neg`":
    /// an edge from the negation of each literal to the other literal, and the
    /// same two edges turned around in the reverse graph.
    pub fn add_clause(&mut self, x: usize, x_neg: bool, y: usize, y_neg: bool)
        requires
            old(self).wf(),
            x < old(self)@.formula.num_variables,
            y < old(self)@.formula.num_variables,
        ensures
            final(self).wf(),
            final(self)@.formula == old(self)@.formula.extended(
                (Clause { x: x as nat, x_neg, y: y as nat, y_neg }),
            ),
            final(self)@.assignment == old(self)@.assignment,
            final(self).forward() == add_edge(
                add_edge(
                    old(self).forward(),
                    negation(literal_node(x as nat, x_neg)),
                    literal_node(y as nat, y_neg),
                ),
                negation(literal_node(y as nat, y_neg)),
                literal_node(x as nat, x_neg),
            ),
            final(self).backward() == add_edge(
                add_edge(
                    old(self).backward(),
                    literal_node(y as nat, y_neg),
                    negation(literal_node(x as nat, x_neg)),
                ),
                literal_node(x as nat, x_neg),
                negation(literal_node(y as nat, y_neg)),
            ),
    {
        let ghost before = self@.formula;
        let ghost c = Clause { x: x as nat, x_neg, y: y as nat, y_neg };
        let ghost after = before.extended(c);
        let x_node = self.var_to_node(x, x_neg);
        let y_node = self.var_to_node(y, y_neg);
        proof {
            lemma_flip_lowest_bit(x_node);
            lemma_flip_lowest_bit(y_node);
            lemma_graph_edges(before);
            assert(after.earlier() == before) by {
                assert(after.clauses.drop_last() =~= before.clauses);
            }
            assert(after.clauses.last() == c);
        }
        let ghost g0 = adjacency(self.adj_list);
        let ghost r0 = adjacency(self.reverse_adj_list);

        self.adj_list[x_node ^ 1].push(y_node);
        let ghost g1 = adjacency(self.adj_list);
        assert(g1 =~= add_edge(g0, negation(c.first()), c.second()));
        self.adj_list[y_node ^ 1].push(x_node);
        assert(adjacency(self.adj_list) =~= add_edge(
            g1,
            negation(c.second()),
            c.first(),
        ));

        self.reverse_adj_list[y_node].push(x_node ^ 1);
        let ghost r1 = adjacency(self.reverse_adj_list);
        assert(r1 =~= add_edge(r0, c.second(), negation(c.first())));
        self.reverse_adj_list[x_node].push(y_node ^ 1);
        assert(adjacency(self.reverse_adj_list) =~= add_edge(
            r1,
            c.first(),
            negation(c.second()),
        ));

        self.clauses = Ghost(after.clauses);
    }

    /// Decides whether the formula is satisfiable. If it is, the assignment
    /// buffer gets a satisfying assignment: the nodes are sorted by component
    /// id and taken from the largest id down, and a node without a value is
    /// made false and its negation true. If the formula is not satisfiable,
    /// the buffer is left as it was.
    pub fn solve(&mut self) -> (sat: bool)
        requires
            old(self).wf(),
        ensures
            final(self).wf(),
            solved(old(self)@, sat, final(self)@),
            sat ==> final(self)@.formula.consistent(),
            sat ==> final(self)@.formula.satisfied_by(final(self)@.assignment),
    {
        let ghost f = self@.formula;
        let ghost n2 = 2 * self.num_variables;
        let scc = self.compute_scc();
        let ghost ids = scc@;
        assert(ids.len() == n2) by {
            self.lemma_wf();
            lemma_component_ids_of(f);
        }

        let mut var: usize = 0;
        while var < self.num_variables
            invariant
                *self == *old(self),
                self.wf(),
                ids == scc@,
                ids == f.components(),
                f == self@.formula,
                ids.len() == 2 * self.num_variables,
                2 * self.num_variables <= usize::MAX,
                var <= self.num_variables,
                forall|v: int| 0 <= v < var ==> ids[2 * v] != #[trigger] ids[2 * v + 1],
            decreases self.num_variables - var,
        {
            if scc[2 * var] == scc[2 * var + 1] {
                assert(!f.satisfiable()) by {
                    assert(ids[2 * var] == ids[2 * var + 1]);
                    assert(!f.consistent());
                    self.lemma_wf();
                    lemma_satisfiable_iff_consistent(f);
                }
                return false;
            }
            var += 1;
        }
        assert(f.consistent());
        assert(f.satisfiable() && f.satisfied_by(f.solution())) by {
            self.lemma_wf();
            lemma_satisfiable_iff_consistent(f);
            lemma_solution_satisfies(f);
        }
        assert forall|w: int| 0 <= w < n2 implies ids[w] != #[trigger] ids[negation(w as nat) as int] by {
            let v = w / 2;
            assert(ids[2 * v] != ids[2 * v + 1]);
        }

        let mut order = node_range(2 * self.num_variables);
        let ghost nodes = order@;
        sort_by_component(&mut order, &scc);
        proof {
            lemma_same_nodes(nodes, order@, n2 as nat);
        }
        assert(sorted_nodes(ids, order@));

        let mut value = undecided(2 * self.num_variables);
        let mut i: usize = order.len();
        while i > 0
            invariant
                sorted_nodes(ids, order@),
                resolved_from(ids, order@, value@, i as int),
            decreases i,
        {
            proof {
                lemma_next_entry(ids, order@, i as int);
            }
            let ghost earlier = value@;
            i -= 1;
            let v = order[i];
            if value[v].is_none() {
                proof {
                    lemma_flip_lowest_bit(v);
                    lemma_decide(ids, order@, earlier, i + 1);
                }
                value.set(v, Some(false));
                value.set(v ^ 1, Some(true));
            } else {
                proof {
                    lemma_skip(ids, order@, earlier, i + 1);
                }
            }
        }

        let mut var: usize = 0;
        while var < self.num_variables
            invariant
                var <= self.num_variables,
                self.num_variables == old(self).num_variables,
                self.adj_list == old(self).adj_list,
                self.reverse_adj_list == old(self).reverse_adj_list,
                self.clauses == old(self).clauses,
                self.assignment.len() == self.num_variables,
                ids.len() == 2 * self.num_variables,
                2 * self.num_variables <= usize::MAX,
                sorted_nodes(ids, order@),
                resolved_from(ids, order@, value@, 0),
                forall|v: int|
                    0 <= v < var ==> #[trigger] self.assignment@[v] == (ids[2 * v] < ids[2 * v + 1]),
            decreases self.num_variables - var,
        {
            proof {
                lemma_resolved(ids, order@, value@, 2 * var);
                assert(negation((2 * var) as nat) == 2 * var + 1);
            }
            self.assignment[var] = value[2 * var].unwrap();
            var += 1;
        }
        assert(self.assignment@ =~= f.solution());
        true
    }

    /// The assignment buffer: one value per variable, all false until a
    /// `solve` has succeeded.
    pub fn get_assignment(&self) -> (assignment: Vec<bool>)
        ensures
            assignment@ == self@.assignment,
    {
        let assignment = self.assignment.clone();
        assert(assignment@ =~= self.assignment@);
        assignment
    }

    /// The node of the literal: variable `var`, negated if `is_negated`.
    fn var_to_node(&self, var: usize, is_negated: bool) -> (node: usize)
        requires
            2 * var + 1 <= usize::MAX,
        ensures
            node == literal_node(var as nat, is_negated),
    {
        if is_negated {
            2 * var + 1
        } else {
            2 * var
        }
    }

    /// The component id of every literal node: the strongly connected
    /// components of the implication graph, numbered from 0 in a reverse
    /// topological order, so that no edge leads from a smaller id to a larger
    /// one. The finish order is taken on the reverse graph, and the
    /// components are labelled on the implication graph.
    #[verifier::loop_isolation(false)]
    pub fn compute_scc(&self) -> (component: Vec<usize>)
        requires
            self.wf(),
        ensures
            component@ == component_ids(self.forward(), self.backward()),
            component@ == self@.formula.components(),
            numbers_components(self.forward(), component@),
    {
        let ghost f = self@.formula;
        let ghost g = f.implication_graph();
        let ghost gt = f.reverse_graph();
        proof {
            self.lemma_wf();
            lemma_component_ids_of(f);
            lemma_graph_edges(f);
            lemma_finish_order(gt);
        }
        let n = 2 * self.num_variables;
        let mut order: Vec<usize> = Vec::new();
        let mut visited = vec![false; n];
        let ghost fresh = Seq::new(n as nat, |x: int| false);
        assert(visited@ =~= fresh);

        let mut v: usize = 0;
        while v < n
            invariant
                v <= n,
                visited.len() == n,
                finish_from(gt, v as nat, visited@, order@) == finish_from(
                    gt,
                    0,
                    fresh,
                    Seq::empty(),
                ),
            decreases n - v,
        {
            if !visited[v] {
                dfs(v, &self.reverse_adj_list, &mut visited, &mut order);
            }
            v += 1;
        }
        assert(order@ == finish_order(gt));

        let mut component = vec![0usize; n];
        assert(component@ =~= Seq::new(n as nat, |x: int| 0usize));
        let mut current_component: usize = 0;
        visited = vec![false; n];
        assert(visited@ =~= fresh);

        let mut k: usize = order.len();
        while k > 0
            invariant
                k <= order.len(),
                visited.len() == n,
                component.len() == n,
                current_component + k <= order.len(),
                label_from(g, order@, k as nat, visited@, component@, current_component)
                    == f.components(),
            decreases k,
        {
            k -= 1;
            let root = order[k];
            if !visited[root] {
                reverse_dfs(
                    root,
                    &self.adj_list,
                    &mut visited,
                    &mut component,
                    current_component,
                );
                current_component += 1;
            }
        }
        component
    }
}

} // verus!
